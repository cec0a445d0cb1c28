//! The recorded events.
use crate::number::Real;
use vstd::prelude::*;

verus! {

/// Nanoseconds in a millisecond.
pub const MS: u64 = 1_000_000;

/// Nanoseconds in a second.
pub const SECOND: u64 = 1_000_000_000;

/// The version of the event schema.
pub const SCHEMA: u32 = 1;

/// One received event.
#[derive(Clone, Debug)]
pub struct Event<R> {
    pub version: u32,
    pub session: String,
    pub seq: u64,
    /// Monotonic clock anchored to UTC at session start; availability clock.
    pub recv_ns: u64,
    pub utc_ns: u64,
    pub exchange_ns: Option<u64>,
    /// The payload that the event was decoded from, as JSON text.
    pub raw: Option<String>,
    pub kind: Kind<R>,
}

/// What an event says. A level is a price and the quantity displayed at it.
#[derive(Clone, Debug)]
pub enum Kind<R> {
    Metadata { symbol: String, tick: R, step: R, min_qty: R, min_notional: R },
    Snapshot { symbol: String, last_id: u64, bids: Vec<[R; 2]>, asks: Vec<[R; 2]> },
    Depth {
        symbol: String,
        first_id: u64,
        last_id: u64,
        prev_id: u64,
        bids: Vec<[R; 2]>,
        asks: Vec<[R; 2]>,
    },
    Trade { symbol: String, id: u64, price: R, qty: R, buyer_maker: bool },
    Mark { symbol: String, price: R, rate: R, next_funding_ns: u64 },
    Funding { symbol: String, funding_ns: u64, rate: R, mark: R },
    Connection { source: String, connected: bool },
    Disconnect { reason: String },
    Timer,
}

/// The mathematical content of a [`Kind`].
#[verifier::ext_equal]
pub enum KindView<R> {
    Metadata { symbol: Seq<char>, tick: R, step: R, min_qty: R, min_notional: R },
    Snapshot { symbol: Seq<char>, last_id: u64, bids: Seq<[R; 2]>, asks: Seq<[R; 2]> },
    Depth {
        symbol: Seq<char>,
        first_id: u64,
        last_id: u64,
        prev_id: u64,
        bids: Seq<[R; 2]>,
        asks: Seq<[R; 2]>,
    },
    Trade { symbol: Seq<char>, id: u64, price: R, qty: R, buyer_maker: bool },
    Mark { symbol: Seq<char>, price: R, rate: R, next_funding_ns: u64 },
    Funding { symbol: Seq<char>, funding_ns: u64, rate: R, mark: R },
    Connection { source: Seq<char>, connected: bool },
    Disconnect { reason: Seq<char> },
    Timer,
}

/// The mathematical content of an [`Event`].
#[verifier::ext_equal]
pub struct EventView<R> {
    pub version: u32,
    pub session: Seq<char>,
    pub seq: u64,
    pub recv_ns: u64,
    pub utc_ns: u64,
    pub exchange_ns: Option<u64>,
    pub raw: Option<Seq<char>>,
    pub kind: KindView<R>,
}

impl<R> View for Kind<R> {
    type V = KindView<R>;

    open spec fn view(&self) -> KindView<R> {
        match *self {
            Kind::Metadata { symbol, tick, step, min_qty, min_notional } => KindView::Metadata {
                symbol: symbol@,
                tick,
                step,
                min_qty,
                min_notional,
            },
            Kind::Snapshot { symbol, last_id, bids, asks } => KindView::Snapshot {
                symbol: symbol@,
                last_id,
                bids: bids@,
                asks: asks@,
            },
            Kind::Depth { symbol, first_id, last_id, prev_id, bids, asks } => KindView::Depth {
                symbol: symbol@,
                first_id,
                last_id,
                prev_id,
                bids: bids@,
                asks: asks@,
            },
            Kind::Trade { symbol, id, price, qty, buyer_maker } => KindView::Trade {
                symbol: symbol@,
                id,
                price,
                qty,
                buyer_maker,
            },
            Kind::Mark { symbol, price, rate, next_funding_ns } => KindView::Mark {
                symbol: symbol@,
                price,
                rate,
                next_funding_ns,
            },
            Kind::Funding { symbol, funding_ns, rate, mark } => KindView::Funding {
                symbol: symbol@,
                funding_ns,
                rate,
                mark,
            },
            Kind::Connection { source, connected } => KindView::Connection {
                source: source@,
                connected,
            },
            Kind::Disconnect { reason } => KindView::Disconnect { reason: reason@ },
            Kind::Timer => KindView::Timer,
        }
    }
}

impl<R> View for Event<R> {
    type V = EventView<R>;

    open spec fn view(&self) -> EventView<R> {
        EventView {
            version: self.version,
            session: self.session@,
            seq: self.seq,
            recv_ns: self.recv_ns,
            utc_ns: self.utc_ns,
            exchange_ns: self.exchange_ns,
            raw: match self.raw {
                Some(text) => Some(text@),
                None => None,
            },
            kind: self.kind@,
        }
    }
}

impl<R> KindView<R> {
    /// The instrument that the event is about, if it is about one.
    pub open spec fn symbol(self) -> Option<Seq<char>> {
        match self {
            KindView::Metadata { symbol, .. } => Some(symbol),
            KindView::Snapshot { symbol, .. } => Some(symbol),
            KindView::Depth { symbol, .. } => Some(symbol),
            KindView::Trade { symbol, .. } => Some(symbol),
            KindView::Mark { symbol, .. } => Some(symbol),
            KindView::Funding { symbol, .. } => Some(symbol),
            KindView::Connection { .. } => None,
            KindView::Disconnect { .. } => None,
            KindView::Timer => None,
        }
    }
}

impl<R> EventView<R> {
    /// The same event as if it had been received at another time.
    pub open spec fn received_at(self, recv_ns: u64) -> EventView<R> {
        EventView { recv_ns, ..self }
    }
}

impl<R> Kind<R> {
    /// The instrument that the event is about, if it is about one.
    pub fn symbol(&self) -> (r: Option<&str>)
        ensures
            r is Some <==> self@.symbol() is Some,
            r is Some ==> r->0@ == self@.symbol()->0,
    {
        match self {
            Kind::Metadata { symbol, .. } => Some(symbol.as_str()),
            Kind::Snapshot { symbol, .. } => Some(symbol.as_str()),
            Kind::Depth { symbol, .. } => Some(symbol.as_str()),
            Kind::Trade { symbol, .. } => Some(symbol.as_str()),
            Kind::Mark { symbol, .. } => Some(symbol.as_str()),
            Kind::Funding { symbol, .. } => Some(symbol.as_str()),
            Kind::Connection { .. } => None,
            Kind::Disconnect { .. } => None,
            Kind::Timer => None,
        }
    }
}

/// The mathematical content of a list of events.
pub open spec fn event_views<R>(events: Seq<Event<R>>) -> Seq<EventView<R>> {
    events.map_values(|e: Event<R>| e@)
}

/// A copy of a list of levels.
pub fn copy_levels<R: Real>(levels: &Vec<[R; 2]>) -> (r: Vec<[R; 2]>)
    ensures
        r@ == levels@,
{
    let mut out: Vec<[R; 2]> = Vec::new();
    for i in 0..levels.len()
        invariant
            out@ == levels@.take(i as int),
    {
        let level: [R; 2] = levels[i];
        out.push(level);
    }
    out
}

impl<R: Real> Event<R> {
    /// A copy of the event, raw payload and all.
    pub fn duplicate(&self) -> (r: Event<R>)
        ensures
            r@ == self@,
    {
        let kind = match &self.kind {
            Kind::Metadata { symbol, tick, step, min_qty, min_notional } => Kind::Metadata {
                symbol: symbol.clone(),
                tick: *tick,
                step: *step,
                min_qty: *min_qty,
                min_notional: *min_notional,
            },
            Kind::Snapshot { symbol, last_id, bids, asks } => Kind::Snapshot {
                symbol: symbol.clone(),
                last_id: *last_id,
                bids: copy_levels(bids),
                asks: copy_levels(asks),
            },
            Kind::Depth { symbol, first_id, last_id, prev_id, bids, asks } => Kind::Depth {
                symbol: symbol.clone(),
                first_id: *first_id,
                last_id: *last_id,
                prev_id: *prev_id,
                bids: copy_levels(bids),
                asks: copy_levels(asks),
            },
            Kind::Trade { symbol, id, price, qty, buyer_maker } => Kind::Trade {
                symbol: symbol.clone(),
                id: *id,
                price: *price,
                qty: *qty,
                buyer_maker: *buyer_maker,
            },
            Kind::Mark { symbol, price, rate, next_funding_ns } => Kind::Mark {
                symbol: symbol.clone(),
                price: *price,
                rate: *rate,
                next_funding_ns: *next_funding_ns,
            },
            Kind::Funding { symbol, funding_ns, rate, mark } => Kind::Funding {
                symbol: symbol.clone(),
                funding_ns: *funding_ns,
                rate: *rate,
                mark: *mark,
            },
            Kind::Connection { source, connected } => Kind::Connection {
                source: source.clone(),
                connected: *connected,
            },
            Kind::Disconnect { reason } => Kind::Disconnect { reason: reason.clone() },
            Kind::Timer => Kind::Timer,
        };
        Event {
            version: self.version,
            session: self.session.clone(),
            seq: self.seq,
            recv_ns: self.recv_ns,
            utc_ns: self.utc_ns,
            exchange_ns: self.exchange_ns,
            raw: match &self.raw {
                Some(text) => Some(text.clone()),
                None => None,
            },
            kind,
        }
    }
}

} // verus!
