//! The streams that a recording reads, and what it asks for beside them.
use crate::config::{Config, Venue};
use crate::error::Error;
use crate::json::{json_of, read_json};
use crate::number::Real;
use crate::recorder::{depth_streams_of, depth_url, market_streams_of, market_url};
use crate::text::{joined, texts};
use crate::venue::coinbase::{subscription, subscription_of};
use vstd::prelude::*;

verus! {

/// After how many polls the rules of the instruments are asked for anew.
pub const REFRESH_POLLS: u64 = 30;

/// A stream to read: where it is, the feed that it is, what is sent to it first, and whether its
/// messages are numbered.
#[derive(Clone, Debug)]
pub struct Source {
    pub url: String,
    pub feed: String,
    pub requests: Vec<String>,
    pub numbered: bool,
}

/// The mathematical content of a [`Source`].
#[verifier::ext_equal]
pub struct SourceView {
    pub url: Seq<char>,
    pub feed: Seq<char>,
    pub requests: Seq<Seq<char>>,
    pub numbered: bool,
}

impl View for Source {
    type V = SourceView;

    open spec fn view(&self) -> SourceView {
        SourceView {
            url: self.url@,
            feed: self.feed@,
            requests: texts(self.requests@),
            numbered: self.numbered,
        }
    }
}

/// A stream of the Binance USD-M venue: its address names what it carries, and its messages carry no
/// common number.
pub open spec fn named_stream(url: Seq<char>, feed: Seq<char>) -> SourceView {
    SourceView { url, feed, requests: Seq::empty(), numbered: false }
}

/// A stream of the Coinbase venue: it carries what is subscribed to, with heartbeats, and numbers its
/// messages.
pub open spec fn subscribed_stream(
    url: Seq<char>,
    feed: Seq<char>,
    channel: Seq<char>,
    products: Seq<Seq<char>>,
) -> SourceView {
    SourceView {
        url,
        feed,
        requests: seq![
            subscription_of(channel, products),
            subscription_of("heartbeats"@, products),
        ],
        numbered: true,
    }
}

/// The two streams of a recording: the one with the books, and the one with the trades.
pub open spec fn sources_of<R: Real>(c: Config<R>) -> (SourceView, SourceView) {
    match c.venue {
        Venue::BinanceUsdm => (
            named_stream(c.public_ws@ + "?streams="@ + depth_streams_of(c.names()), "public"@),
            named_stream(c.market_ws@ + "?streams="@ + market_streams_of(c.names()), "market"@),
        ),
        Venue::CoinbaseSpot => (
            subscribed_stream(c.public_ws@, "public"@, "level2"@, c.names()),
            subscribed_stream(c.market_ws@, "market"@, "market_trades"@, c.names()),
        ),
    }
}

fn named(url: String, feed: &str) -> (r: Source)
    ensures
        r@ == named_stream(url@, feed@),
{
    let requests: Vec<String> = Vec::new();
    let r = Source { url, feed: feed.to_owned(), requests, numbered: false };
    assert(r@.requests =~= Seq::<Seq<char>>::empty());
    r
}

fn subscribed(url: String, feed: &str, channel: &str, products: &Vec<String>) -> (r: Source)
    ensures
        r@ == subscribed_stream(url@, feed@, channel@, texts(products@)),
{
    let mut requests: Vec<String> = Vec::new();
    requests.push(subscription(channel, products));
    requests.push(subscription("heartbeats", products));
    let r = Source { url, feed: feed.to_owned(), requests, numbered: true };
    assert(r@.requests =~= seq![
        subscription_of(channel@, texts(products@)),
        subscription_of("heartbeats"@, texts(products@)),
    ]);
    r
}

/// The two streams of a recording: the one with the books, and the one with the trades.
pub fn sources<R: Real>(c: &Config<R>) -> (r: (Source, Source))
    requires
        c.fault() is None,
    ensures
        (r.0@, r.1@) == sources_of(*c),
{
    match c.venue {
        Venue::BinanceUsdm => (named(depth_url(c), "public"), named(market_url(c), "market")),
        Venue::CoinbaseSpot => (
            subscribed(c.public_ws.clone(), "public", "level2", &c.symbols),
            subscribed(c.market_ws.clone(), "market", "market_trades", &c.symbols),
        ),
    }
}

/// The number of a message: none on a stream without numbers, whatever the text.
pub fn message_number(numbered: bool, text: &str) -> (r: Result<Option<u64>, Error>)
    ensures
        r == if !numbered {
            Ok::<Option<u64>, Error>(None)
        } else {
            match json_of(text@) {
                Some(j) => Ok(j.at("sequence_num"@).unsigned()),
                None => Err(Error::MalformedText),
            }
        },
{
    if !numbered {
        return Ok(None);
    }
    match read_json(text) {
        Ok(j) => Ok(j.get_unsigned("sequence_num")),
        Err(fault) => Err(fault),
    }
}

/// Where the rules of all instruments are asked for, at the Binance USD-M venue.
pub fn rules_url<R: Real>(c: &Config<R>) -> (r: String)
    ensures
        r@ == c.rest_url@ + "/fapi/v1/exchangeInfo"@,
{
    joined(c.rest_url.as_str(), "/fapi/v1/exchangeInfo")
}

/// Where settlements are asked for, at the Binance USD-M venue.
pub fn funding_url<R: Real>(c: &Config<R>) -> (r: String)
    ensures
        r@ == c.rest_url@ + "/fapi/v1/fundingRate"@,
{
    joined(c.rest_url.as_str(), "/fapi/v1/fundingRate")
}

/// Whether a venue has settlements to ask for: perpetual contracts have, spot products have not.
pub fn settles(venue: Venue) -> (r: bool)
    ensures
        r == (venue == Venue::BinanceUsdm),
{
    match venue {
        Venue::BinanceUsdm => true,
        Venue::CoinbaseSpot => false,
    }
}

/// Whether the rules of the instruments are asked for anew behind a number of polls.
pub fn refreshes(polls: u64) -> (r: bool)
    ensures
        r == (polls % REFRESH_POLLS == 0),
{
    polls % REFRESH_POLLS == 0
}

} // verus!
