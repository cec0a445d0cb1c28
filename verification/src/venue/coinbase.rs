//! What the Coinbase Advanced Trade venue sends.
use crate::book::BookView;
use crate::config::Config;
use crate::error::Error;
use crate::json::{gathered, lemma_gathered_stops, Json};
use crate::number::Real;
use crate::recorder::{says, Decoded};
use crate::text::{join, joined, parse_unsigned, same_text, separated, texts, unsigned_of};
use crate::types::{Kind, KindView};
use vstd::hash_map::StringHashMap;
use vstd::prelude::*;

verus! {

/// The number that a text denotes.
pub open spec fn amount_of<R: Real>(j: Json) -> Result<R, Error> {
    match j {
        Json::Text(s) => match R::spec_parse(&s) {
            Some(x) => Ok(x),
            None => Err(Error::InvalidNumber),
        },
        _ => Err(Error::MissingNumber),
    }
}

fn num<R: Real>(j: &Json, key: &str) -> (r: Result<R, Error>)
    ensures
        r == amount_of::<R>(j.at(key@)),
{
    match j.get_text(key) {
        None => Err(Error::MissingNumber),
        Some(s) => match R::parse(s) {
            Some(x) => Ok(x),
            None => Err(Error::InvalidNumber),
        },
    }
}

/// The unsigned integer that a text denotes.
pub open spec fn id_of(j: Json) -> Result<u64, Error> {
    match j.text() {
        None => Err(Error::MissingId),
        Some(s) => match unsigned_of(s) {
            Some(n) => Ok(n),
            None => Err(Error::InvalidId),
        },
    }
}

fn id(j: &Json, key: &str) -> (r: Result<u64, Error>)
    ensures
        r == id_of(j.at(key@)),
{
    match j.get_text(key) {
        None => Err(Error::MissingId),
        Some(s) => match parse_unsigned(s.as_str()) {
            Some(n) => Ok(n),
            None => Err(Error::InvalidId),
        },
    }
}

/// The level that an update gives for a side: none, if it is for the other side.
pub open spec fn level_for<R: Real>(update: Json, side: Seq<char>) -> Result<Seq<[R; 2]>, Error> {
    if !update.at("side"@).is_text(side) {
        Ok(Seq::empty())
    } else {
        match amount_of::<R>(update.at("price_level"@)) {
            Err(fault) => Err(fault),
            Ok(price) => match amount_of::<R>(update.at("new_quantity"@)) {
                Err(fault) => Err(fault),
                Ok(qty) => Ok(seq![[price, qty]]),
            },
        }
    }
}

/// The levels that updates give for a side.
pub open spec fn levels_for<R: Real>(updates: Seq<Json>, side: Seq<char>) -> Result<
    Seq<[R; 2]>,
    Error,
> {
    gathered(updates.len(), |i: int| level_for::<R>(updates[i], side))
}

fn levels<R: Real>(updates: &Vec<Json>, side: &str) -> (r: Result<Vec<[R; 2]>, Error>)
    ensures
        match levels_for::<R>(updates@, side@) {
            Err(fault) => r is Err && r->Err_0 == fault,
            Ok(list) => r is Ok && r->Ok_0@ == list,
        },
{
    let ghost part = |i: int| level_for::<R>(updates@[i], side@);
    let mut out: Vec<[R; 2]> = Vec::new();
    let mut i: usize = 0;
    while i < updates.len()
        invariant
            i <= updates.len(),
            part == (|i: int| level_for::<R>(updates@[i], side@)),
            gathered(i as nat, part) == Ok::<Seq<[R; 2]>, Error>(out@),
        decreases updates.len() - i,
    {
        let ghost before = out@;
        let update = &updates[i];
        if update.says("side", side) {
            let price = num(update, "price_level");
            let qty = num(update, "new_quantity");
            match (price, qty) {
                (Err(fault), _) => {
                    proof {
                        lemma_gathered_stops((i + 1) as nat, updates@.len(), part);
                    }
                    return Err(fault);
                },
                (Ok(_), Err(fault)) => {
                    proof {
                        lemma_gathered_stops((i + 1) as nat, updates@.len(), part);
                    }
                    return Err(fault);
                },
                (Ok(price), Ok(qty)) => {
                    out.push([price, qty]);
                    assert(out@ =~= before + seq![[price, qty]]);
                },
            }
        } else {
            assert(out@ =~= before + Seq::<[R; 2]>::empty());
        }
        i = i + 1;
    }
    Ok(out)
}

/// The nanoseconds from the Unix epoch to the time that an RFC 3339 text gives, if it gives one.
pub uninterp spec fn rfc3339_nanos(text: Seq<char>) -> Option<i128>;

/// Calls `time::OffsetDateTime::parse` with the RFC 3339 format, and `unix_timestamp_nanos` on the
/// time that it gives. Claims that the result depends on the text alone.
#[verifier::external_body]
fn parse_rfc3339(text: &str) -> (r: Option<i128>)
    ensures
        r == rfc3339_nanos(text@),
{
    time::OffsetDateTime::parse(text, &time::format_description::well_known::Rfc3339).ok().map(
        |t| t.unix_timestamp_nanos(),
    )
}

/// A number of nanoseconds as the clock holds it.
pub open spec fn clock_of(nanos: int) -> u64 {
    (nanos % 0x1_0000_0000_0000_0000) as u64
}

/// A number of nanoseconds as the clock holds it.
pub fn clock(nanos: i128) -> (r: u64)
    ensures
        r == clock_of(nanos as int),
{
    let r: u64 = nanos as u64;
    assert(r == nanos % 0x1_0000_0000_0000_0000i128) by (bit_vector)
        requires
            r == nanos as u64,
    ;
    r
}

/// When the venue says that a message was sent, if it says.
pub open spec fn sent_at(raw: Json) -> Result<Option<u64>, Error> {
    match raw.at("timestamp"@).text() {
        None => Ok(None),
        Some(s) => match rfc3339_nanos(s) {
            None => Err(Error::InvalidTimestamp),
            Some(t) => Ok(Some(clock_of(t as int))),
        },
    }
}

fn exchange_ns(raw: &Json) -> (r: Result<Option<u64>, Error>)
    ensures
        r == sent_at(*raw),
{
    match raw.get_text("timestamp") {
        None => Ok(None),
        Some(s) => match parse_rfc3339(s.as_str()) {
            None => Err(Error::InvalidTimestamp),
            Some(t) => Ok(Some(clock(t))),
        },
    }
}

/// Decodes messages. It remembers the last sequence number seen for each product, so that updates
/// can be chained into the ids that [`crate::book::Book::apply`] expects. Sequence numbers are
/// assigned per connection, not per product, so one message alone does not give the chain.
pub struct Decoder {
    last_seq: StringHashMap<u64>,
}

impl View for Decoder {
    type V = Map<Seq<char>, u64>;

    closed spec fn view(&self) -> Map<Seq<char>, u64> {
        self.last_seq@
    }
}

impl Default for Decoder {
    /// A decoder that has seen nothing.
    fn default() -> (r: Decoder)
        ensures
            r@ == Map::<Seq<char>, u64>::empty(),
    {
        Decoder { last_seq: StringHashMap::new() }
    }
}

/// The last sequence number seen for a product, or 0.
pub open spec fn last_of(seen: Map<Seq<char>, u64>, product: Seq<char>) -> u64 {
    if seen.contains_key(product) {
        seen[product]
    } else {
        0
    }
}

/// What an event on the book says, and the product that it is about.
pub open spec fn book_event_of<R: Real>(seen: Map<Seq<char>, u64>, event: Json, seq: u64) -> Result<
    (Seq<char>, KindView<R>),
    Error,
> {
    match event.at("product_id"@).text() {
        None => Err(Error::MissingProduct),
        Some(symbol) => match event.at("updates"@).items() {
            None => Err(Error::MissingUpdates),
            Some(updates) => match levels_for::<R>(updates, "bid"@) {
                Err(fault) => Err(fault),
                Ok(bids) => match levels_for::<R>(updates, "offer"@) {
                    Err(fault) => Err(fault),
                    Ok(asks) => Ok(
                        (
                            symbol,
                            if event.at("type"@).is_text("snapshot"@) {
                                KindView::Snapshot { symbol, last_id: seq, bids, asks }
                            } else {
                                KindView::Depth {
                                    symbol,
                                    first_id: last_of(seen, symbol),
                                    last_id: seq,
                                    prev_id: last_of(seen, symbol),
                                    bids,
                                    asks,
                                }
                            },
                        ),
                    ),
                },
            },
        },
    }
}

/// What a decoder has seen after the first `n` events of a message on the book, and what they say.
/// It has seen those before the first that is refused.
pub open spec fn chained<R: Real>(
    seen: Map<Seq<char>, u64>,
    events: Seq<Json>,
    seq: u64,
    t: Option<u64>,
    n: nat,
) -> (Map<Seq<char>, u64>, Result<Seq<Decoded<R>>, Error>)
    decreases n,
{
    if n == 0 {
        (seen, Ok(Seq::empty()))
    } else {
        let (before, first) = chained::<R>(seen, events, seq, t, (n - 1) as nat);
        match first {
            Err(fault) => (before, Err(fault)),
            Ok(list) => match book_event_of::<R>(before, events[n - 1], seq) {
                Err(fault) => (before, Err(fault)),
                Ok((symbol, kind)) => (before.insert(symbol, seq), Ok(list.push((kind, t)))),
            },
        }
    }
}

proof fn lemma_chained_stops<R: Real>(
    seen: Map<Seq<char>, u64>,
    events: Seq<Json>,
    seq: u64,
    t: Option<u64>,
    n: nat,
    m: nat,
)
    requires
        n <= m,
        chained::<R>(seen, events, seq, t, n).1 is Err,
    ensures
        chained::<R>(seen, events, seq, t, m) == chained::<R>(seen, events, seq, t, n),
    decreases m,
{
    if n < m {
        lemma_chained_stops::<R>(seen, events, seq, t, n, (m - 1) as nat);
    }
}

/// What a trade says.
pub open spec fn trade_of<R: Real>(t: Json) -> Result<KindView<R>, Error> {
    match t.at("product_id"@).text() {
        None => Err(Error::MissingProduct),
        Some(symbol) => match id_of(t.at("trade_id"@)) {
            Err(fault) => Err(fault),
            Ok(id) => match amount_of::<R>(t.at("price"@)) {
                Err(fault) => Err(fault),
                Ok(price) => match amount_of::<R>(t.at("size"@)) {
                    Err(fault) => Err(fault),
                    Ok(qty) => Ok(
                        KindView::Trade {
                            symbol,
                            id,
                            price,
                            qty,
                            buyer_maker: t.at("side"@).is_text("BUY"@),
                        },
                    ),
                },
            },
        },
    }
}

/// What an event on trades says. A snapshot of past trades says nothing.
pub open spec fn trade_event_of<R: Real>(event: Json, t: Option<u64>) -> Result<
    Seq<Decoded<R>>,
    Error,
> {
    if !event.at("type"@).is_text("update"@) {
        Ok(Seq::empty())
    } else {
        match event.at("trades"@).items() {
            None => Err(Error::MissingTrades),
            Some(trades) => gathered(
                trades.len(),
                |i: int|
                    match trade_of::<R>(trades[i]) {
                        Err(fault) => Err(fault),
                        Ok(kind) => Ok(seq![(kind, t)]),
                    },
            ),
        }
    }
}

/// What the events of a message on trades say.
pub open spec fn trade_events_of<R: Real>(events: Seq<Json>, t: Option<u64>) -> Result<
    Seq<Decoded<R>>,
    Error,
> {
    gathered(events.len(), |i: int| trade_event_of::<R>(events[i], t))
}

/// What a decoder has seen after a message on a channel that was sent at `t`, and what the message
/// says. Messages on other channels say nothing.
pub open spec fn received<R: Real>(
    seen: Map<Seq<char>, u64>,
    raw: Json,
    channel: Seq<char>,
    t: Option<u64>,
) -> (Map<Seq<char>, u64>, Result<Seq<Decoded<R>>, Error>) {
    if channel == "l2_data"@ {
        match raw.at("sequence_num"@).unsigned() {
            None => (seen, Err(Error::MissingSequence)),
            Some(seq) => match raw.at("events"@).items() {
                None => (seen, Err(Error::MissingEvents)),
                Some(events) => chained::<R>(seen, events, seq, t, events.len()),
            },
        }
    } else if channel == "market_trades"@ {
        match raw.at("events"@).items() {
            None => (seen, Err(Error::MissingEvents)),
            Some(events) => (seen, trade_events_of::<R>(events, t)),
        }
    } else {
        (seen, Ok(Seq::empty()))
    }
}

/// What a decoder has seen after a message, and what the message says.
pub open spec fn decoded<R: Real>(seen: Map<Seq<char>, u64>, raw: Json) -> (
    Map<Seq<char>, u64>,
    Result<Seq<Decoded<R>>, Error>,
) {
    match raw.at("channel"@).text() {
        None => (seen, Err(Error::MissingChannel)),
        Some(channel) => match sent_at(raw) {
            Err(fault) => (seen, Err(fault)),
            Ok(t) => received::<R>(seen, raw, channel, t),
        },
    }
}

/// The mathematical content of a list of decoded kinds.
pub open spec fn decoded_views<R>(list: Seq<(Kind<R>, Option<u64>)>) -> Seq<Decoded<R>> {
    list.map_values(|d: (Kind<R>, Option<u64>)| (d.0@, d.1))
}

/// Whether a result is what is expected.
pub open spec fn lists<R>(
    r: Result<Vec<(Kind<R>, Option<u64>)>, Error>,
    expected: Result<Seq<Decoded<R>>, Error>,
) -> bool {
    match expected {
        Err(fault) => r is Err && r->Err_0 == fault,
        Ok(list) => r is Ok && decoded_views(r->Ok_0@) == list,
    }
}

fn trade<R: Real>(t: &Json) -> (r: Result<Kind<R>, Error>)
    ensures
        says(r, trade_of::<R>(*t)),
{
    let symbol = match t.get_text("product_id") {
        None => return Err(Error::MissingProduct),
        Some(s) => s.clone(),
    };
    let id: u64 = match id(t, "trade_id") {
        Err(fault) => return Err(fault),
        Ok(n) => n,
    };
    let price: R = match num(t, "price") {
        Err(fault) => return Err(fault),
        Ok(x) => x,
    };
    match num(t, "size") {
        Err(fault) => Err(fault),
        Ok(qty) => Ok(Kind::Trade { symbol, id, price, qty, buyer_maker: t.says("side", "BUY") }),
    }
}

fn trade_event<R: Real>(event: &Json, t: Option<u64>) -> (r: Result<
    Vec<(Kind<R>, Option<u64>)>,
    Error,
>)
    ensures
        lists(r, trade_event_of::<R>(*event, t)),
{
    let mut out: Vec<(Kind<R>, Option<u64>)> = Vec::new();
    assert(decoded_views(out@) =~= Seq::<Decoded<R>>::empty());
    if !event.says("type", "update") {
        return Ok(out);
    }
    let trades = match event.get_items("trades") {
        None => return Err(Error::MissingTrades),
        Some(trades) => trades,
    };
    let ghost part = |i: int|
        match trade_of::<R>(trades@[i]) {
            Err(fault) => Err(fault),
            Ok(kind) => Ok(seq![(kind, t)]),
        };
    let mut i: usize = 0;
    while i < trades.len()
        invariant
            i <= trades.len(),
            event.at("type"@).is_text("update"@),
            event.at("trades"@).items() == Some(trades@),
            part == (|i: int|
                match trade_of::<R>(trades@[i]) {
                    Err(fault) => Err(fault),
                    Ok(kind) => Ok(seq![(kind, t)]),
                }),
            gathered(i as nat, part) == Ok::<Seq<Decoded<R>>, Error>(decoded_views(out@)),
        decreases trades.len() - i,
    {
        match trade::<R>(&trades[i]) {
            Err(fault) => {
                proof {
                    lemma_gathered_stops((i + 1) as nat, trades@.len(), part);
                }
                return Err(fault);
            },
            Ok(kind) => {
                let ghost before = out@;
                out.push((kind, t));
                assert(decoded_views(out@) =~= decoded_views(before) + seq![(kind@, t)]);
            },
        }
        i = i + 1;
    }
    Ok(out)
}

fn trade_events<R: Real>(events: &Vec<Json>, t: Option<u64>) -> (r: Result<
    Vec<(Kind<R>, Option<u64>)>,
    Error,
>)
    ensures
        lists(r, trade_events_of::<R>(events@, t)),
{
    let ghost part = |i: int| trade_event_of::<R>(events@[i], t);
    let mut out: Vec<(Kind<R>, Option<u64>)> = Vec::new();
    assert(decoded_views(out@) =~= Seq::<Decoded<R>>::empty());
    let mut i: usize = 0;
    while i < events.len()
        invariant
            i <= events.len(),
            part == (|i: int| trade_event_of::<R>(events@[i], t)),
            gathered(i as nat, part) == Ok::<Seq<Decoded<R>>, Error>(decoded_views(out@)),
        decreases events.len() - i,
    {
        match trade_event::<R>(&events[i], t) {
            Err(fault) => {
                proof {
                    lemma_gathered_stops((i + 1) as nat, events@.len(), part);
                }
                return Err(fault);
            },
            Ok(list) => {
                let ghost before = out@;
                let mut more = list;
                out.append(&mut more);
                assert(decoded_views(out@) =~= decoded_views(before) + decoded_views(list@));
            },
        }
        i = i + 1;
    }
    Ok(out)
}

impl Decoder {
    /// Decodes an event on the book.
    fn book_event<R: Real>(&mut self, event: &Json, seq: u64) -> (r: Result<Kind<R>, Error>)
        ensures
            match book_event_of::<R>(old(self)@, *event, seq) {
                Err(fault) => final(self)@ == old(self)@ && r is Err && r->Err_0 == fault,
                Ok((symbol, kind)) => final(self)@ == old(self)@.insert(symbol, seq) && r is Ok
                    && r->Ok_0@ == kind,
            },
    {
        let symbol = match event.get_text("product_id") {
            None => return Err(Error::MissingProduct),
            Some(s) => s.clone(),
        };
        let updates = match event.get_items("updates") {
            None => return Err(Error::MissingUpdates),
            Some(updates) => updates,
        };
        let bids: Vec<[R; 2]> = match levels(updates, "bid") {
            Err(fault) => return Err(fault),
            Ok(list) => list,
        };
        let asks: Vec<[R; 2]> = match levels(updates, "offer") {
            Err(fault) => return Err(fault),
            Ok(list) => list,
        };
        let kind = if event.says("type", "snapshot") {
            Kind::Snapshot { symbol: symbol.clone(), last_id: seq, bids, asks }
        } else {
            let prev: u64 = match self.last_seq.get(symbol.as_str()) {
                Some(n) => *n,
                None => 0,
            };
            Kind::Depth {
                symbol: symbol.clone(),
                first_id: prev,
                last_id: seq,
                prev_id: prev,
                bids,
                asks,
            }
        };
        self.last_seq.insert(symbol, seq);
        Ok(kind)
    }

    fn book_events<R: Real>(&mut self, events: &Vec<Json>, seq: u64, t: Option<u64>) -> (r: Result<
        Vec<(Kind<R>, Option<u64>)>,
        Error,
    >)
        ensures
            final(self)@ == chained::<R>(old(self)@, events@, seq, t, events@.len()).0,
            lists(r, chained::<R>(old(self)@, events@, seq, t, events@.len()).1),
    {
        let ghost seen = self@;
        let mut out: Vec<(Kind<R>, Option<u64>)> = Vec::new();
        assert(decoded_views(out@) =~= Seq::<Decoded<R>>::empty());
        let mut i: usize = 0;
        while i < events.len()
            invariant
                i <= events.len(),
                seen == old(self)@,
                chained::<R>(seen, events@, seq, t, i as nat) == (
                    self@,
                    Ok::<Seq<Decoded<R>>, Error>(decoded_views(out@)),
                ),
            decreases events.len() - i,
        {
            match self.book_event::<R>(&events[i], seq) {
                Err(fault) => {
                    proof {
                        lemma_chained_stops::<R>(
                            seen,
                            events@,
                            seq,
                            t,
                            (i + 1) as nat,
                            events@.len(),
                        );
                    }
                    return Err(fault);
                },
                Ok(kind) => {
                    let ghost before = out@;
                    out.push((kind, t));
                    assert(decoded_views(out@) =~= decoded_views(before).push((kind@, t)));
                },
            }
            i = i + 1;
        }
        Ok(out)
    }

    /// Decodes a message on a channel that was sent at `t`.
    pub fn receive<R: Real>(&mut self, raw: &Json, channel: &str, t: Option<u64>) -> (r: Result<
        Vec<(Kind<R>, Option<u64>)>,
        Error,
    >)
        ensures
            final(self)@ == received::<R>(old(self)@, *raw, channel@, t).0,
            lists(r, received::<R>(old(self)@, *raw, channel@, t).1),
    {
        if same_text(channel, "l2_data") {
            match raw.get_unsigned("sequence_num") {
                None => Err(Error::MissingSequence),
                Some(seq) => match raw.get_items("events") {
                    None => Err(Error::MissingEvents),
                    Some(events) => self.book_events(events, seq, t),
                },
            }
        } else if same_text(channel, "market_trades") {
            match raw.get_items("events") {
                None => Err(Error::MissingEvents),
                Some(events) => trade_events(events, t),
            }
        } else {
            let out: Vec<(Kind<R>, Option<u64>)> = Vec::new();
            assert(decoded_views(out@) =~= Seq::<Decoded<R>>::empty());
            Ok(out)
        }
    }

    /// Decodes a message of the venue.
    pub fn decode<R: Real>(&mut self, raw: &Json) -> (r: Result<
        Vec<(Kind<R>, Option<u64>)>,
        Error,
    >)
        ensures
            final(self)@ == decoded::<R>(old(self)@, *raw).0,
            lists(r, decoded::<R>(old(self)@, *raw).1),
    {
        let channel = match raw.get_text("channel") {
            None => return Err(Error::MissingChannel),
            Some(s) => s.as_str(),
        };
        match exchange_ns(raw) {
            Err(fault) => Err(fault),
            Ok(t) => self.receive(raw, channel, t),
        }
    }
}

/// What the description of a product says of an instrument.
pub open spec fn product_of<R: Real>(v: Json, symbol: Seq<char>) -> Result<KindView<R>, Error> {
    if !v.at("status"@).is_text("online"@) {
        Err(Error::InstrumentOffline)
    } else {
        match amount_of::<R>(v.at("quote_increment"@)) {
            Err(fault) => Err(fault),
            Ok(tick) => match amount_of::<R>(v.at("base_increment"@)) {
                Err(fault) => Err(fault),
                Ok(step) => match amount_of::<R>(v.at("base_min_size"@)) {
                    Err(fault) => Err(fault),
                    Ok(min_qty) => match amount_of::<R>(v.at("quote_min_size"@)) {
                        Err(fault) => Err(fault),
                        Ok(min_notional) => Ok(
                            KindView::Metadata { symbol, tick, step, min_qty, min_notional },
                        ),
                    },
                },
            },
        }
    }
}

/// What the description of a product says of an instrument.
pub fn metadata<R: Real>(v: &Json, symbol: &String) -> (r: Result<Kind<R>, Error>)
    ensures
        says(r, product_of::<R>(*v, symbol@)),
{
    if !v.says("status", "online") {
        return Err(Error::InstrumentOffline);
    }
    let tick: R = match num(v, "quote_increment") {
        Err(fault) => return Err(fault),
        Ok(x) => x,
    };
    let step: R = match num(v, "base_increment") {
        Err(fault) => return Err(fault),
        Ok(x) => x,
    };
    let min_qty: R = match num(v, "base_min_size") {
        Err(fault) => return Err(fault),
        Ok(x) => x,
    };
    match num(v, "quote_min_size") {
        Err(fault) => Err(fault),
        Ok(min_notional) => Ok(
            Kind::Metadata { symbol: symbol.clone(), tick, step, min_qty, min_notional },
        ),
    }
}

/// The request to be sent what happens on a channel for some products.
pub open spec fn subscription_of(channel: Seq<char>, products: Seq<Seq<char>>) -> Seq<char> {
    "{\"type\":\"subscribe\",\"product_ids\":[\""@ + separated(products, "\",\""@)
        + "\"],\"channel\":\""@ + channel + "\"}"@
}

/// The request to be sent what happens on a channel for some products.
pub fn subscription(channel: &str, products: &Vec<String>) -> (r: String)
    ensures
        r@ == subscription_of(channel@, texts(products@)),
{
    let list = join(products, "\",\"");
    let head = joined("{\"type\":\"subscribe\",\"product_ids\":[\"", list.as_str());
    let middle = joined(head.as_str(), "\"],\"channel\":\"");
    joined(joined(middle.as_str(), channel).as_str(), "\"}")
}

/// Where the description of a product is asked for.
pub fn product_url<R: Real>(c: &Config<R>, symbol: &String) -> (r: String)
    ensures
        r@ == c.rest_url@ + "/api/v3/brokerage/market/products/"@ + symbol@,
{
    let base = joined(c.rest_url.as_str(), "/api/v3/brokerage/market/products/");
    joined(base.as_str(), symbol.as_str())
}

/// An update follows on the last message about its product: a book that stands there is moved on by
/// every update with a later number, and never finds a gap.
pub proof fn law_updates_follow_on<R: Real>(
    seen: Map<Seq<char>, u64>,
    event: Json,
    seq: u64,
    book: BookView<R>,
)
    requires
        book_event_of::<R>(seen, event, seq) is Ok,
        book_event_of::<R>(seen, event, seq)->Ok_0.1 is Depth,
        book.last_id == Some(last_of(seen, book_event_of::<R>(seen, event, seq)->Ok_0.0)),
        seq > book.last_id->0,
    ensures
        book_event_of::<R>(seen, event, seq)->Ok_0.1 matches KindView::Depth {
            first_id,
            last_id,
            prev_id,
            ..
        } && first_id <= last_id && last_id == seq && !book.covers(book.last_id->0, last_id)
            && book.continues(book.last_id->0, first_id, last_id, prev_id),
        last_of(seen.insert(book_event_of::<R>(seen, event, seq)->Ok_0.0, seq), book_event_of::<R>(
            seen,
            event,
            seq,
        )->Ok_0.0) == seq,
{
}

} // verus!
