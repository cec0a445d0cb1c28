//! What the Binance USD-M venue sends, and the recording session.
use crate::config::{law_two_instruments, Config};
use crate::error::Error;
use crate::json::{
    gathered, integer_at, integer_of, lemma_gathered_stops, number_at, number_of, read_number, Json,
};
use crate::number::{is_positive, positive, Real};
use crate::text::{join, joined, lowercase, lowered, same_text, separated, texts};
use crate::types::{Kind, KindView, MS};
use vstd::prelude::*;

verus! {

/// What a message says, with the time that the venue gave it.
pub type Decoded<R> = (KindView<R>, Option<u64>);

/// A price and a quantity.
pub open spec fn level_of<R: Real>(j: Json) -> Result<Seq<[R; 2]>, Error> {
    match number_of::<R>(j.nth(0)) {
        Err(fault) => Err(fault),
        Ok(price) => match number_of::<R>(j.nth(1)) {
            Err(fault) => Err(fault),
            Ok(qty) => Ok(seq![[price, qty]]),
        },
    }
}

/// A list of levels.
pub open spec fn levels_of<R: Real>(j: Json) -> Result<Seq<[R; 2]>, Error> {
    match j.items() {
        None => Err(Error::MissingLevels),
        Some(items) => gathered(items.len(), |i: int| level_of::<R>(items[i])),
    }
}

/// A price and a quantity.
fn level<R: Real>(j: &Json) -> (r: Result<[R; 2], Error>)
    ensures
        match level_of::<R>(*j) {
            Err(fault) => r == Err::<[R; 2], Error>(fault),
            Ok(one) => r is Ok && one == seq![r->Ok_0],
        },
{
    let price: R = match j.item(0) {
        None => return Err(Error::MissingNumber),
        Some(v) => match read_number(v) {
            Err(fault) => return Err(fault),
            Ok(x) => x,
        },
    };
    let qty: R = match j.item(1) {
        None => return Err(Error::MissingNumber),
        Some(v) => match read_number(v) {
            Err(fault) => return Err(fault),
            Ok(x) => x,
        },
    };
    Ok([price, qty])
}

/// The levels that a member lists.
pub fn levels<R: Real>(j: &Json, key: &str) -> (r: Result<Vec<[R; 2]>, Error>)
    ensures
        match levels_of::<R>(j.at(key@)) {
            Err(fault) => r == Err::<Vec<[R; 2]>, Error>(fault),
            Ok(list) => r is Ok && r->Ok_0@ == list,
        },
{
    let items = match j.get_items(key) {
        None => return Err(Error::MissingLevels),
        Some(items) => items,
    };
    let ghost part = |i: int| level_of::<R>(items@[i]);
    let mut out: Vec<[R; 2]> = Vec::new();
    let mut i: usize = 0;
    while i < items.len()
        invariant
            i <= items.len(),
            j.at(key@).items() == Some(items@),
            part == (|i: int| level_of::<R>(items@[i])),
            gathered(i as nat, part) == Ok::<Seq<[R; 2]>, Error>(out@),
        decreases items.len() - i,
    {
        match level(&items[i]) {
            Err(fault) => {
                proof {
                    lemma_gathered_stops((i + 1) as nat, items@.len(), part);
                }
                return Err(fault);
            },
            Ok(one) => {
                let ghost before = out@;
                out.push(one);
                assert(out@ =~= before + seq![one]);
            },
        }
        i = i + 1;
    }
    Ok(out)
}

/// A time in nanoseconds, from milliseconds.
pub open spec fn millis(ms: u64) -> Result<u64, Error> {
    if ms * MS <= u64::MAX {
        Ok((ms * MS) as u64)
    } else {
        Err(Error::TimeOutOfRange)
    }
}

/// A time in nanoseconds, from milliseconds.
pub fn from_millis(ms: u64) -> (r: Result<u64, Error>)
    ensures
        r == millis(ms),
{
    if ms <= u64::MAX / MS {
        Ok(ms * MS)
    } else {
        Err(Error::TimeOutOfRange)
    }
}

/// A change of the book.
pub open spec fn depth_of<R: Real>(v: Json, symbol: Seq<char>) -> Result<KindView<R>, Error> {
    match integer_of(v.at("U"@)) {
        Err(fault) => Err(fault),
        Ok(first_id) => match integer_of(v.at("u"@)) {
            Err(fault) => Err(fault),
            Ok(last_id) => match integer_of(v.at("pu"@)) {
                Err(fault) => Err(fault),
                Ok(prev_id) => match levels_of::<R>(v.at("b"@)) {
                    Err(fault) => Err(fault),
                    Ok(bids) => match levels_of::<R>(v.at("a"@)) {
                        Err(fault) => Err(fault),
                        Ok(asks) => Ok(
                            KindView::Depth { symbol, first_id, last_id, prev_id, bids, asks },
                        ),
                    },
                },
            },
        },
    }
}

fn depth<R: Real>(v: &Json, symbol: &String) -> (r: Result<Kind<R>, Error>)
    ensures
        says(r, depth_of::<R>(*v, symbol@)),
{
    let first_id: u64 = match integer_at(v, "U") {
        Err(fault) => return Err(fault),
        Ok(n) => n,
    };
    let last_id: u64 = match integer_at(v, "u") {
        Err(fault) => return Err(fault),
        Ok(n) => n,
    };
    let prev_id: u64 = match integer_at(v, "pu") {
        Err(fault) => return Err(fault),
        Ok(n) => n,
    };
    let bids: Vec<[R; 2]> = match levels(v, "b") {
        Err(fault) => return Err(fault),
        Ok(list) => list,
    };
    let asks: Vec<[R; 2]> = match levels(v, "a") {
        Err(fault) => return Err(fault),
        Ok(list) => list,
    };
    Ok(Kind::Depth { symbol: symbol.clone(), first_id, last_id, prev_id, bids, asks })
}

/// An aggregate trade.
pub open spec fn trade_of<R: Real>(v: Json, symbol: Seq<char>) -> Result<KindView<R>, Error> {
    match number_of::<R>(v.at("p"@)) {
        Err(fault) => Err(fault),
        Ok(price) => match number_of::<R>(v.at("q"@)) {
            Err(fault) => Err(fault),
            Ok(qty) => if !(is_positive(price) && is_positive(qty)) {
                Err(Error::InvalidTrade)
            } else {
                match integer_of(v.at("a"@)) {
                    Err(fault) => Err(fault),
                    Ok(id) => match v.at("m"@).flag() {
                        None => Err(Error::MissingMakerFlag),
                        Some(buyer_maker) => Ok(
                            KindView::Trade { symbol, id, price, qty, buyer_maker },
                        ),
                    },
                }
            },
        },
    }
}

fn trade<R: Real>(v: &Json, symbol: &String) -> (r: Result<Kind<R>, Error>)
    ensures
        says(r, trade_of::<R>(*v, symbol@)),
{
    let price: R = match number_at(v, "p") {
        Err(fault) => return Err(fault),
        Ok(x) => x,
    };
    let qty: R = match number_at(v, "q") {
        Err(fault) => return Err(fault),
        Ok(x) => x,
    };
    if !(positive(price) && positive(qty)) {
        return Err(Error::InvalidTrade);
    }
    let id: u64 = match integer_at(v, "a") {
        Err(fault) => return Err(fault),
        Ok(n) => n,
    };
    match v.get_flag("m") {
        None => Err(Error::MissingMakerFlag),
        Some(buyer_maker) => Ok(
            Kind::Trade { symbol: symbol.clone(), id, price, qty, buyer_maker },
        ),
    }
}

/// A mark price.
pub open spec fn mark_of<R: Real>(v: Json, symbol: Seq<char>) -> Result<KindView<R>, Error> {
    match number_of::<R>(v.at("p"@)) {
        Err(fault) => Err(fault),
        Ok(price) => match number_of::<R>(v.at("r"@)) {
            Err(fault) => Err(fault),
            Ok(rate) => match integer_of(v.at("T"@)) {
                Err(fault) => Err(fault),
                Ok(ms) => match millis(ms) {
                    Err(fault) => Err(fault),
                    Ok(next_funding_ns) => Ok(
                        KindView::Mark { symbol, price, rate, next_funding_ns },
                    ),
                },
            },
        },
    }
}

fn mark<R: Real>(v: &Json, symbol: &String) -> (r: Result<Kind<R>, Error>)
    ensures
        says(r, mark_of::<R>(*v, symbol@)),
{
    let price: R = match number_at(v, "p") {
        Err(fault) => return Err(fault),
        Ok(x) => x,
    };
    let rate: R = match number_at(v, "r") {
        Err(fault) => return Err(fault),
        Ok(x) => x,
    };
    let ms: u64 = match integer_at(v, "T") {
        Err(fault) => return Err(fault),
        Ok(n) => n,
    };
    match from_millis(ms) {
        Err(fault) => Err(fault),
        Ok(next_funding_ns) => Ok(
            Kind::Mark { symbol: symbol.clone(), price, rate, next_funding_ns },
        ),
    }
}

/// Whether a result is what is expected.
pub open spec fn says<R>(r: Result<Kind<R>, Error>, expected: Result<KindView<R>, Error>) -> bool {
    match expected {
        Err(fault) => r is Err && r->Err_0 == fault,
        Ok(kind) => r is Ok && r->Ok_0@ == kind,
    }
}

/// The event in a message: it may be wrapped in a stream's envelope.
pub open spec fn unwrapped(raw: Json) -> Json {
    match raw.member("data"@) {
        Some(data) => data,
        None => raw,
    }
}

/// What the event in a message says of an instrument.
pub open spec fn kind_of<R: Real>(v: Json, symbol: Seq<char>) -> Result<KindView<R>, Error> {
    match v.at("e"@).text() {
        None => Err(Error::MissingEventType),
        Some(name) => if name == "depthUpdate"@ {
            depth_of(v, symbol)
        } else if name == "aggTrade"@ {
            trade_of(v, symbol)
        } else if name == "markPriceUpdate"@ {
            mark_of(v, symbol)
        } else {
            Err(Error::UnknownStreamEvent)
        },
    }
}

/// When the venue says that an event happened, if it says.
pub open spec fn event_time(v: Json) -> Result<Option<u64>, Error> {
    match v.at("E"@).unsigned() {
        None => Ok(None),
        Some(ms) => match millis(ms) {
            Err(fault) => Err(fault),
            Ok(t) => Ok(Some(t)),
        },
    }
}

/// What a message says. A reply to a request says nothing.
pub open spec fn decoded<R: Real>(raw: Json) -> Result<Option<Decoded<R>>, Error> {
    let v = unwrapped(raw);
    if v.member("result"@) is Some {
        Ok(None)
    } else {
        match v.at("s"@).text() {
            None => Err(Error::MissingSymbol),
            Some(symbol) => if v.at("st"@).unsigned() is Some && v.at("st"@).unsigned()->0 != 1 {
                Err(Error::UnexpectedInstrument)
            } else {
                match kind_of::<R>(v, symbol) {
                    Err(fault) => Err(fault),
                    Ok(kind) => match event_time(v) {
                        Err(fault) => Err(fault),
                        Ok(t) => Ok(Some((kind, t))),
                    },
                }
            },
        }
    }
}

/// Decodes a message of the venue.
pub fn decode<R: Real>(raw: &Json) -> (r: Result<Option<(Kind<R>, Option<u64>)>, Error>)
    ensures
        match decoded::<R>(*raw) {
            Err(fault) => r is Err && r->Err_0 == fault,
            Ok(None) => r is Ok && r->Ok_0 is None,
            Ok(Some((kind, t))) => r matches Ok(Some(pair)) && pair.0@ == kind && pair.1 == t,
        },
{
    let v = match raw.get("data") {
        Some(data) => data,
        None => raw,
    };
    if v.get("result").is_some() {
        return Ok(None);
    }
    let symbol = match v.get_text("s") {
        None => return Err(Error::MissingSymbol),
        Some(s) => s,
    };
    match v.get_unsigned("st") {
        Some(n) => if n != 1 {
            return Err(Error::UnexpectedInstrument);
        },
        None => {},
    }
    let name = match v.get_text("e") {
        None => return Err(Error::MissingEventType),
        Some(name) => name.as_str(),
    };
    let result: Result<Kind<R>, Error> = if same_text(name, "depthUpdate") {
        depth(v, symbol)
    } else if same_text(name, "aggTrade") {
        trade(v, symbol)
    } else if same_text(name, "markPriceUpdate") {
        mark(v, symbol)
    } else {
        Err(Error::UnknownStreamEvent)
    };
    match result {
        Err(fault) => Err(fault),
        Ok(kind) => match v.get_unsigned("E") {
            None => Ok(Some((kind, None))),
            Some(ms) => match from_millis(ms) {
                Err(fault) => Err(fault),
                Ok(t) => Ok(Some((kind, Some(t)))),
            },
        },
    }
}

/// The reply to a request for a snapshot of the book.
pub open spec fn snapshot_of<R: Real>(v: Json, symbol: Seq<char>) -> Result<KindView<R>, Error> {
    match integer_of(v.at("lastUpdateId"@)) {
        Err(fault) => Err(fault),
        Ok(last_id) => match levels_of::<R>(v.at("bids"@)) {
            Err(fault) => Err(fault),
            Ok(bids) => match levels_of::<R>(v.at("asks"@)) {
                Err(fault) => Err(fault),
                Ok(asks) => Ok(KindView::Snapshot { symbol, last_id, bids, asks }),
            },
        },
    }
}

/// Decodes the reply to a request for a snapshot of the book.
pub fn snapshot<R: Real>(v: &Json, symbol: &String) -> (r: Result<Kind<R>, Error>)
    ensures
        says(r, snapshot_of::<R>(*v, symbol@)),
{
    let last_id: u64 = match integer_at(v, "lastUpdateId") {
        Err(fault) => return Err(fault),
        Ok(n) => n,
    };
    let bids: Vec<[R; 2]> = match levels(v, "bids") {
        Err(fault) => return Err(fault),
        Ok(list) => list,
    };
    let asks: Vec<[R; 2]> = match levels(v, "asks") {
        Err(fault) => return Err(fault),
        Ok(list) => list,
    };
    Ok(Kind::Snapshot { symbol: symbol.clone(), last_id, bids, asks })
}

/// The first item, from `i` on, a member of which is a given text.
pub open spec fn saying_from(items: Seq<Json>, key: Seq<char>, text: Seq<char>, i: int) -> Option<
    int,
>
    decreases items.len() - i,
{
    if i < 0 || i >= items.len() {
        None
    } else if items[i].at(key).is_text(text) {
        Some(i)
    } else {
        saying_from(items, key, text, i + 1)
    }
}

/// The first item a member of which is a given text.
fn find_saying(items: &Vec<Json>, key: &str, text: &str) -> (r: Option<usize>)
    ensures
        match saying_from(items@, key@, text@, 0) {
            Some(k) => r is Some && r->0 == k && 0 <= k < items@.len(),
            None => r is None,
        },
{
    let mut i: usize = 0;
    while i < items.len()
        invariant
            i <= items.len(),
            saying_from(items@, key@, text@, 0) == saying_from(items@, key@, text@, i as int),
        decreases items.len() - i,
    {
        if items[i].says(key, text) {
            return Some(i);
        }
        i = i + 1;
    }
    None
}

/// The filter of an instrument of a given type.
pub open spec fn filter_of(filters: Seq<Json>, name: Seq<char>) -> Result<Json, Error> {
    match saying_from(filters, "filterType"@, name, 0) {
        None => Err(Error::MissingFilter),
        Some(k) => Ok(filters[k]),
    }
}

fn filter<'a>(filters: &'a Vec<Json>, name: &str) -> (r: Result<&'a Json, Error>)
    ensures
        match filter_of(filters@, name@) {
            Err(fault) => r is Err && r->Err_0 == fault,
            Ok(j) => r is Ok && *r->Ok_0 == j,
        },
{
    match find_saying(filters, "filterType", name) {
        None => Err(Error::MissingFilter),
        Some(k) => Ok(&filters[k]),
    }
}

/// The rules of an instrument, from its filters.
pub open spec fn rules_of<R: Real>(filters: Seq<Json>, symbol: Seq<char>) -> Result<
    KindView<R>,
    Error,
> {
    match filter_of(filters, "MARKET_LOT_SIZE"@) {
        Err(fault) => Err(fault),
        Ok(lot) => match filter_of(filters, "PRICE_FILTER"@) {
            Err(fault) => Err(fault),
            Ok(price) => match number_of::<R>(price.at("tickSize"@)) {
                Err(fault) => Err(fault),
                Ok(tick) => match number_of::<R>(lot.at("stepSize"@)) {
                    Err(fault) => Err(fault),
                    Ok(step) => match number_of::<R>(lot.at("minQty"@)) {
                        Err(fault) => Err(fault),
                        Ok(min_qty) => match filter_of(filters, "MIN_NOTIONAL"@) {
                            Err(fault) => Err(fault),
                            Ok(least) => match number_of::<R>(least.at("notional"@)) {
                                Err(fault) => Err(fault),
                                Ok(min_notional) => Ok(
                                    KindView::Metadata {
                                        symbol,
                                        tick,
                                        step,
                                        min_qty,
                                        min_notional,
                                    },
                                ),
                            },
                        },
                    },
                },
            },
        },
    }
}

fn rules<R: Real>(filters: &Vec<Json>, symbol: &String) -> (r: Result<Kind<R>, Error>)
    ensures
        says(r, rules_of::<R>(filters@, symbol@)),
{
    let lot = match filter(filters, "MARKET_LOT_SIZE") {
        Err(fault) => return Err(fault),
        Ok(j) => j,
    };
    let price = match filter(filters, "PRICE_FILTER") {
        Err(fault) => return Err(fault),
        Ok(j) => j,
    };
    let tick: R = match number_at(price, "tickSize") {
        Err(fault) => return Err(fault),
        Ok(x) => x,
    };
    let step: R = match number_at(lot, "stepSize") {
        Err(fault) => return Err(fault),
        Ok(x) => x,
    };
    let min_qty: R = match number_at(lot, "minQty") {
        Err(fault) => return Err(fault),
        Ok(x) => x,
    };
    let least = match filter(filters, "MIN_NOTIONAL") {
        Err(fault) => return Err(fault),
        Ok(j) => j,
    };
    match number_at(least, "notional") {
        Err(fault) => Err(fault),
        Ok(min_notional) => Ok(
            Kind::Metadata { symbol: symbol.clone(), tick, step, min_qty, min_notional },
        ),
    }
}

/// What the list of instruments says of one, and the row that says it.
pub open spec fn instrument_of<R: Real>(v: Json, symbol: Seq<char>) -> Result<
    (KindView<R>, int),
    Error,
> {
    match v.at("symbols"@).items() {
        None => Err(Error::MissingSymbols),
        Some(rows) => match saying_from(rows, "symbol"@, symbol, 0) {
            None => Err(Error::InstrumentUnavailable),
            Some(k) => if !(rows[k].at("status"@).is_text("TRADING"@) && rows[k].at(
                "contractType"@,
            ).is_text("PERPETUAL"@)) {
                Err(Error::InstrumentInactive)
            } else {
                match rows[k].at("filters"@).items() {
                    None => Err(Error::MissingFilters),
                    Some(filters) => match rules_of::<R>(filters, symbol) {
                        Err(fault) => Err(fault),
                        Ok(kind) => Ok((kind, k)),
                    },
                }
            },
        },
    }
}

/// What the list of instruments says of one, and the row that says it.
pub fn instrument<R: Real>(v: &Json, symbol: &String) -> (r: Result<(Kind<R>, usize), Error>)
    ensures
        match instrument_of::<R>(*v, symbol@) {
            Err(fault) => r is Err && r->Err_0 == fault,
            Ok((kind, k)) => r is Ok && r->Ok_0.0@ == kind && r->Ok_0.1 == k,
        },
{
    let rows = match v.get_items("symbols") {
        None => return Err(Error::MissingSymbols),
        Some(rows) => rows,
    };
    let k: usize = match find_saying(rows, "symbol", symbol.as_str()) {
        None => return Err(Error::InstrumentUnavailable),
        Some(k) => k,
    };
    if !(rows[k].says("status", "TRADING") && rows[k].says("contractType", "PERPETUAL")) {
        return Err(Error::InstrumentInactive);
    }
    match rows[k].get_items("filters") {
        None => Err(Error::MissingFilters),
        Some(filters) => match rules(filters, symbol) {
            Err(fault) => Err(fault),
            Ok(kind) => Ok((kind, k)),
        },
    }
}

/// What a funding settlement says, and the time in milliseconds after it.
pub open spec fn settlement_of<R: Real>(row: Json, symbol: Seq<char>) -> Result<
    (KindView<R>, u64),
    Error,
> {
    match integer_of(row.at("fundingTime"@)) {
        Err(fault) => Err(fault),
        Ok(ms) => match millis(ms) {
            Err(fault) => Err(fault),
            Ok(funding_ns) => match number_of::<R>(row.at("fundingRate"@)) {
                Err(fault) => Err(fault),
                Ok(rate) => match number_of::<R>(row.at("markPrice"@)) {
                    Err(fault) => Err(fault),
                    Ok(mark) => Ok(
                        (KindView::Funding { symbol, funding_ns, rate, mark }, (ms + 1) as u64),
                    ),
                },
            },
        },
    }
}

fn settlement<R: Real>(row: &Json, symbol: &String) -> (r: Result<(Kind<R>, u64), Error>)
    ensures
        match settlement_of::<R>(*row, symbol@) {
            Err(fault) => r is Err && r->Err_0 == fault,
            Ok((kind, next)) => r is Ok && r->Ok_0.0@ == kind && r->Ok_0.1 == next,
        },
{
    let ms: u64 = match integer_at(row, "fundingTime") {
        Err(fault) => return Err(fault),
        Ok(n) => n,
    };
    let funding_ns: u64 = match from_millis(ms) {
        Err(fault) => return Err(fault),
        Ok(t) => t,
    };
    let rate: R = match number_at(row, "fundingRate") {
        Err(fault) => return Err(fault),
        Ok(x) => x,
    };
    match number_at(row, "markPrice") {
        Err(fault) => Err(fault),
        Ok(mark) => Ok((Kind::Funding { symbol: symbol.clone(), funding_ns, rate, mark }, ms + 1)),
    }
}

/// The most settlements that one request returns.
pub const FUNDING_PAGE: usize = 1000;

/// What a page of settlements gives: those before the first that is refused, the time in
/// milliseconds to ask from next, and whether there may be more behind them.
pub struct Page<R> {
    pub kinds: Vec<Kind<R>>,
    pub next_ms: u64,
    pub more: Result<bool, Error>,
}

/// What the first `n` settlements of a page give: those before the first that is refused, the time
/// to ask from next, and the refusal.
pub open spec fn settled_by<R: Real>(rows: Seq<Json>, symbol: Seq<char>, start: u64, n: nat) -> (
    Seq<KindView<R>>,
    u64,
    Option<Error>,
)
    decreases n,
{
    if n == 0 {
        (Seq::empty(), start, None)
    } else {
        let (kinds, next, fault) = settled_by::<R>(rows, symbol, start, (n - 1) as nat);
        if fault is Some {
            (kinds, next, fault)
        } else {
            match settlement_of::<R>(rows[n - 1], symbol) {
                Err(refusal) => (kinds, next, Some(refusal)),
                Ok((kind, after)) => (
                    kinds.push(kind),
                    if after > next {
                        after
                    } else {
                        next
                    },
                    None,
                ),
            }
        }
    }
}

proof fn lemma_settled_stops<R: Real>(
    rows: Seq<Json>,
    symbol: Seq<char>,
    start: u64,
    n: nat,
    m: nat,
)
    requires
        n <= m,
        settled_by::<R>(rows, symbol, start, n).2 is Some,
    ensures
        settled_by::<R>(rows, symbol, start, m) == settled_by::<R>(rows, symbol, start, n),
    decreases m,
{
    if n < m {
        lemma_settled_stops::<R>(rows, symbol, start, n, (m - 1) as nat);
    }
}

/// The mathematical content of a list of kinds.
pub open spec fn kind_views<R>(kinds: Seq<Kind<R>>) -> Seq<KindView<R>> {
    kinds.map_values(|k: Kind<R>| k@)
}

/// Reads a page of funding settlements that was asked for from a time in milliseconds.
pub fn funding_page<R: Real>(rows: &Json, symbol: &String, start_ms: u64) -> (r: Page<R>)
    ensures
        match rows.items() {
            None => kind_views(r.kinds@) == Seq::<KindView<R>>::empty() && r.next_ms == start_ms
                && r.more == Err::<bool, Error>(Error::FundingNotArray),
            Some(items) => {
                let (kinds, next, fault) = settled_by::<R>(items, symbol@, start_ms, items.len());
                &&& kind_views(r.kinds@) == kinds
                &&& r.next_ms == next
                &&& r.more == match fault {
                    Some(refusal) => Err::<bool, Error>(refusal),
                    None => Ok::<bool, Error>(items.len() >= FUNDING_PAGE),
                }
            },
        },
{
    let mut kinds: Vec<Kind<R>> = Vec::new();
    let mut next: u64 = start_ms;
    assert(kind_views(kinds@) =~= Seq::<KindView<R>>::empty());
    let items = match rows {
        Json::Array(items) => items,
        _ => return Page { kinds, next_ms: next, more: Err(Error::FundingNotArray) },
    };
    let mut i: usize = 0;
    while i < items.len()
        invariant
            i <= items.len(),
            rows.items() == Some(items@),
            settled_by::<R>(items@, symbol@, start_ms, i as nat) == (
                kind_views(kinds@),
                next,
                None::<Error>,
            ),
        decreases items.len() - i,
    {
        match settlement(&items[i], symbol) {
            Err(fault) => {
                proof {
                    lemma_settled_stops::<R>(
                        items@,
                        symbol@,
                        start_ms,
                        (i + 1) as nat,
                        items@.len(),
                    );
                }
                return Page { kinds, next_ms: next, more: Err(fault) };
            },
            Ok((kind, after)) => {
                let ghost before = kinds@;
                kinds.push(kind);
                assert(kind_views(kinds@) =~= kind_views(before).push(kind@));
                if after > next {
                    next = after;
                }
            },
        }
        i = i + 1;
    }
    Page { kinds, next_ms: next, more: Ok(items.len() >= FUNDING_PAGE) }
}

/// What the list of instruments says of each of some instruments, with the rows that say it, or why
/// the first of them is refused.
pub open spec fn instruments_of<R: Real>(v: Json, symbols: Seq<Seq<char>>) -> Result<
    Seq<(KindView<R>, int)>,
    Error,
> {
    gathered(
        symbols.len(),
        |i: int|
            match instrument_of::<R>(v, symbols[i]) {
                Err(fault) => Err(fault),
                Ok(found) => Ok(seq![found]),
            },
    )
}

/// The mathematical content of a list of instruments.
pub open spec fn instrument_views<R>(list: Seq<(Kind<R>, usize)>) -> Seq<(KindView<R>, int)> {
    list.map_values(|p: (Kind<R>, usize)| (p.0@, p.1 as int))
}

/// What the list of instruments says of each of some instruments, with the rows that say it.
pub fn metadata<R: Real>(v: &Json, symbols: &Vec<String>) -> (r: Result<
    Vec<(Kind<R>, usize)>,
    Error,
>)
    ensures
        match instruments_of::<R>(*v, texts(symbols@)) {
            Err(fault) => r is Err && r->Err_0 == fault,
            Ok(list) => r is Ok && instrument_views(r->Ok_0@) == list,
        },
{
    let ghost names = texts(symbols@);
    let ghost part = |i: int|
        match instrument_of::<R>(*v, names[i]) {
            Err(fault) => Err(fault),
            Ok(found) => Ok(seq![found]),
        };
    let mut out: Vec<(Kind<R>, usize)> = Vec::new();
    assert(instrument_views(out@) =~= Seq::<(KindView<R>, int)>::empty());
    let mut i: usize = 0;
    while i < symbols.len()
        invariant
            i <= symbols.len(),
            names == texts(symbols@),
            part == (|i: int|
                match instrument_of::<R>(*v, names[i]) {
                    Err(fault) => Err(fault),
                    Ok(found) => Ok(seq![found]),
                }),
            gathered(i as nat, part) == Ok::<Seq<(KindView<R>, int)>, Error>(
                instrument_views(out@),
            ),
        decreases symbols.len() - i,
    {
        match instrument::<R>(v, &symbols[i]) {
            Err(fault) => {
                proof {
                    lemma_gathered_stops((i + 1) as nat, names.len(), part);
                }
                return Err(fault);
            },
            Ok(found) => {
                let ghost before = out@;
                out.push(found);
                assert(instrument_views(out@) =~= instrument_views(before) + seq![
                    (found.0@, found.1 as int),
                ]);
            },
        }
        i = i + 1;
    }
    Ok(out)
}

/// The name of the stream of an instrument.
pub open spec fn stream_of(symbol: Seq<char>, stream: Seq<char>) -> Seq<char> {
    lowered(symbol) + stream
}

fn stream(symbol: &String, suffix: &str) -> (r: String)
    ensures
        r@ == stream_of(symbol@, suffix@),
{
    joined(lowercase(symbol.as_str()).as_str(), suffix)
}

/// The names of the streams of two instruments that carry the books.
pub open spec fn depth_streams_of(names: Seq<Seq<char>>) -> Seq<char> {
    separated(
        seq![stream_of(names[0], "@depth@100ms"@), stream_of(names[1], "@depth@100ms"@)],
        "/"@,
    )
}

/// The names of the streams of two instruments that carry trades and mark prices.
pub open spec fn market_streams_of(names: Seq<Seq<char>>) -> Seq<char> {
    separated(
        seq![
            stream_of(names[0], "@aggTrade"@),
            stream_of(names[0], "@markPrice@1s"@),
            stream_of(names[1], "@aggTrade"@),
            stream_of(names[1], "@markPrice@1s"@),
        ],
        "/"@,
    )
}

/// Where the streams that carry the books are read.
pub fn depth_url<R: Real>(c: &Config<R>) -> (r: String)
    requires
        c.fault() is None,
    ensures
        r@ == c.public_ws@ + "?streams="@ + depth_streams_of(c.names()),
{
    proof {
        law_two_instruments(*c);
    }
    let mut parts: Vec<String> = Vec::new();
    parts.push(stream(&c.symbols[0], "@depth@100ms"));
    parts.push(stream(&c.symbols[1], "@depth@100ms"));
    assert(texts(parts@) =~= seq![
        stream_of(c.names()[0], "@depth@100ms"@),
        stream_of(c.names()[1], "@depth@100ms"@),
    ]);
    let streams = join(&parts, "/");
    joined(joined(c.public_ws.as_str(), "?streams=").as_str(), streams.as_str())
}

/// Where the streams that carry trades and mark prices are read.
pub fn market_url<R: Real>(c: &Config<R>) -> (r: String)
    requires
        c.fault() is None,
    ensures
        r@ == c.market_ws@ + "?streams="@ + market_streams_of(c.names()),
{
    proof {
        law_two_instruments(*c);
    }
    let mut parts: Vec<String> = Vec::new();
    parts.push(stream(&c.symbols[0], "@aggTrade"));
    parts.push(stream(&c.symbols[0], "@markPrice@1s"));
    parts.push(stream(&c.symbols[1], "@aggTrade"));
    parts.push(stream(&c.symbols[1], "@markPrice@1s"));
    assert(texts(parts@) =~= seq![
        stream_of(c.names()[0], "@aggTrade"@),
        stream_of(c.names()[0], "@markPrice@1s"@),
        stream_of(c.names()[1], "@aggTrade"@),
        stream_of(c.names()[1], "@markPrice@1s"@),
    ]);
    let streams = join(&parts, "/");
    joined(joined(c.market_ws.as_str(), "?streams=").as_str(), streams.as_str())
}

/// Where a snapshot of the book of an instrument is asked for.
pub fn snapshot_url<R: Real>(c: &Config<R>, symbol: &String) -> (r: String)
    ensures
        r@ == c.rest_url@ + "/fapi/v1/depth?symbol="@ + symbol@ + "&limit=1000"@,
{
    let base = joined(c.rest_url.as_str(), "/fapi/v1/depth?symbol=");
    joined(joined(base.as_str(), symbol.as_str()).as_str(), "&limit=1000")
}

/// The moments of the system's clock.
#[verifier::external_type_specification]
#[verifier::external_body]
pub struct ExMoment(std::time::SystemTime);

/// `std::time::SystemTime::now` reads the system's clock. Nothing is claimed of what it reads.
pub assume_specification[ std::time::SystemTime::now ]() -> std::time::SystemTime
;

/// Calls `std::time::SystemTime::duration_since` with the Unix epoch. Nothing is claimed of the
/// result: it depends on the clock alone, and there is none before the epoch.
#[verifier::external_body]
fn since_epoch(moment: std::time::SystemTime) -> (r: Option<std::time::Duration>) {
    moment.duration_since(std::time::SystemTime::UNIX_EPOCH).ok()
}

/// `std::time::Duration::as_nanos` counts the nanoseconds of a duration. Nothing is claimed of how
/// many a clock gives.
pub assume_specification[ std::time::Duration::as_nanos ](duration: &std::time::Duration) -> u128
;

/// A number of nanoseconds as the clock holds it.
pub fn low_ns(nanos: u128) -> (r: u64)
    ensures
        r == nanos % 0x1_0000_0000_0000_0000,
{
    let r: u64 = nanos as u64;
    assert(r == nanos % 0x1_0000_0000_0000_0000) by (bit_vector)
        requires
            r == nanos as u64,
    ;
    r
}

/// What the clock reads, given the nanoseconds since the Unix epoch: their low 64 bits, or nothing
/// where the clock stands before the epoch.
pub fn clock_reading(nanos: Option<u128>) -> (r: Option<u64>)
    ensures
        match nanos {
            Some(n) => r is Some && r->0 == n % 0x1_0000_0000_0000_0000,
            None => r is None,
        },
{
    match nanos {
        Some(n) => Some(low_ns(n)),
        None => None,
    }
}

/// The nanoseconds since the Unix epoch, by the system's clock, as [`clock_reading`] holds them.
/// There is no such number while the clock stands before the epoch. Nothing is stated of the
/// result: whether the clock stands there, and what it reads, is known only by reading it.
pub fn utc_ns() -> (r: Option<u64>) {
    let nanos: Option<u128> = match since_epoch(std::time::SystemTime::now()) {
        Some(duration) => Some(duration.as_nanos()),
        None => None,
    };
    clock_reading(nanos)
}

} // verus!
