//! A displayed order book, synchronized from snapshots and sequenced updates.
use crate::error::Error;
use crate::ladder::{climb, downward, first_level, highest, last_level, lowest, upward};
use crate::number::{empty_sum, is_positive, lemma_total_push, positive, quotient, ratio, total, whole, zero, Real};
use crate::types::{event_views, Event, EventView, Kind, KindView, MS};
use std::collections::BTreeMap;
use vstd::prelude::*;

verus! {

broadcast use vstd::std_specs::btree::group_btree_axioms;

/// How many updates a book holds back while it waits for a snapshot.
pub const BUFFER_LIMIT: usize = 8192;

/// The trading rules of an instrument.
#[derive(Clone, Copy, Debug)]
pub struct Instrument<R> {
    pub tick: R,
    pub step: R,
    pub min_qty: R,
    pub min_notional: R,
}

/// The book of one instrument. Levels are keyed by their price in ticks.
#[derive(Clone, Debug)]
pub struct Book<R> {
    pub instrument: Option<Instrument<R>>,
    pub bids: BTreeMap<i64, R>,
    pub asks: BTreeMap<i64, R>,
    pub last_id: Option<u64>,
    pub synced: bool,
    pub updated_ns: u64,
    pub generation: u64,
    pub buffer: Vec<Event<R>>,
}

/// The mathematical content of a [`Book`].
#[verifier::ext_equal]
pub struct BookView<R> {
    pub instrument: Option<Instrument<R>>,
    pub bids: Map<i64, R>,
    pub asks: Map<i64, R>,
    pub last_id: Option<u64>,
    pub synced: bool,
    pub updated_ns: u64,
    pub generation: u64,
    pub buffer: Seq<EventView<R>>,
}

impl<R> View for Book<R> {
    type V = BookView<R>;

    open spec fn view(&self) -> BookView<R> {
        BookView {
            instrument: self.instrument,
            bids: self.bids@,
            asks: self.asks@,
            last_id: self.last_id,
            synced: self.synced,
            updated_ns: self.updated_ns,
            generation: self.generation,
            buffer: event_views(self.buffer@),
        }
    }
}

/// Why a level is refused, if it is: its price or quantity is no amount, or its price is no
/// multiple of the tick.
pub open spec fn level_fault<R: Real>(level: [R; 2], tick: R) -> Option<Error> {
    let units = level[0].spec_over(tick);
    if !(level[0].spec_is_finite() && is_positive(level[0]) && level[1].spec_is_finite()
        && zero::<R>().spec_within(level[1])) {
        Some(Error::InvalidDepthLevel)
    } else if !(units.spec_below(whole::<R>(i64::MAX)) && units.spec_minus(
        units.spec_rounded(),
    ).spec_magnitude().spec_below(ratio::<R>(1, 100_000))) {
        Some(Error::OffTickPrice)
    } else {
        None
    }
}

/// The key of a price: how many ticks it is.
pub open spec fn price_key<R: Real>(price: R, tick: R) -> i64 {
    price.spec_over(tick).spec_rounded().spec_to_i64()
}

/// A side after one level: a quantity of zero removes the level, another replaces it.
pub open spec fn placed<R: Real>(m: Map<i64, R>, level: [R; 2], tick: R) -> Map<i64, R> {
    if level[1].spec_same(zero::<R>()) {
        m.remove(price_key(level[0], tick))
    } else {
        m.insert(price_key(level[0], tick), level[1])
    }
}

/// A side after a list of levels.
pub open spec fn placed_all<R: Real>(m: Map<i64, R>, levels: Seq<[R; 2]>, tick: R) -> Map<i64, R>
    decreases levels.len(),
{
    if levels.len() == 0 {
        m
    } else {
        placed(placed_all(m, levels.drop_last(), tick), levels.last(), tick)
    }
}

/// How many levels stand before the first one that is refused.
pub open spec fn sound_len<R: Real>(levels: Seq<[R; 2]>, tick: R) -> int
    decreases levels.len(),
{
    if levels.len() == 0 {
        0
    } else {
        let n = sound_len(levels.drop_last(), tick);
        if n == levels.len() - 1 && level_fault(levels.last(), tick) is None {
            levels.len() as int
        } else {
            n
        }
    }
}

/// A side after a list of levels, up to the first that is refused, and why that one is.
pub open spec fn side_after<R: Real>(m: Map<i64, R>, levels: Seq<[R; 2]>, tick: R) -> (
    Map<i64, R>,
    Option<Error>,
) {
    let n = sound_len(levels, tick);
    (
        placed_all(m, levels.take(n), tick),
        if n < levels.len() {
            level_fault(levels[n], tick)
        } else {
            None
        },
    )
}

impl<R: Real> BookView<R> {
    /// A book that knows nothing but its instrument.
    pub open spec fn invalidated(self) -> BookView<R> {
        BookView {
            synced: false,
            last_id: None,
            bids: Map::empty(),
            asks: Map::empty(),
            buffer: Seq::empty(),
            generation: self.generation.wrapping_add(1),
            ..self
        }
    }

    /// The best bid and its quantity, the best ask and its quantity, where the book is two-sided
    /// and not crossed.
    pub open spec fn top(self) -> Option<(R, R, R, R)> {
        match (self.instrument, highest(self.bids), lowest(self.asks)) {
            (Some(meta), Some((b, bq)), Some((a, aq))) => if b < a {
                Some(
                    (
                        whole::<R>(b).spec_times(meta.tick),
                        bq,
                        whole::<R>(a).spec_times(meta.tick),
                        aq,
                    ),
                )
            } else {
                None
            },
            _ => None,
        }
    }

    /// Halfway between the best bid and the best ask.
    pub open spec fn mid(self) -> Option<R> {
        match self.top() {
            Some((b, _, a, _)) => Some(b.spec_plus(a).spec_over(whole::<R>(2))),
            None => None,
        }
    }

    /// Whether the book is synchronized, has a top, and was updated at most `stale_ms` ago.
    pub open spec fn fresh(self, now: u64, stale_ms: u64) -> bool {
        &&& self.synced
        &&& self.top() is Some
        &&& now >= self.updated_ns
        &&& now - self.updated_ns <= stale_ms * MS
    }

    /// The share by which the best `n` bids outweigh the best `n` asks.
    pub open spec fn imbalance(self, n: nat) -> R {
        let b = total(best(downward(self.bids), n));
        let a = total(best(upward(self.asks), n));
        if is_positive(a.spec_plus(b)) {
            b.spec_minus(a).spec_over(b.spec_plus(a))
        } else {
            zero::<R>()
        }
    }

    /// The book after levels of both sides, bids first, up to the first level that is refused.
    pub open spec fn with_levels(self, bids: Seq<[R; 2]>, asks: Seq<[R; 2]>) -> (
        BookView<R>,
        Option<Error>,
    ) {
        match self.instrument {
            None => (self, Some(Error::MissingMetadata)),
            Some(meta) => {
                let (b, bad_bid) = side_after(self.bids, bids, meta.tick);
                let (a, bad_ask) = side_after(self.asks, asks, meta.tick);
                if bad_bid is Some {
                    (BookView { bids: b, ..self }, bad_bid)
                } else {
                    (BookView { bids: b, asks: a, ..self }, bad_ask)
                }
            },
        }
    }

    /// The book after the instrument's rules arrive. Another tick or step makes the levels
    /// meaningless.
    pub open spec fn after_metadata(self, meta: Instrument<R>) -> (BookView<R>, Result<bool, Error>) {
        if !is_amount(meta.tick) || !is_amount(meta.step) || !is_amount(meta.min_qty)
            || !is_amount(meta.min_notional) {
            (self, Err(Error::InvalidInstrument))
        } else {
            let kept = match self.instrument {
                Some(old) => old.tick.spec_same(meta.tick) && old.step.spec_same(meta.step),
                None => true,
            };
            let base = if kept {
                self
            } else {
                self.invalidated()
            };
            (BookView { instrument: Some(meta), ..base }, Ok(true))
        }
    }

    /// Whether an update that ends at `last_id` is already part of a book at `old`.
    pub open spec fn covers(self, old: u64, last_id: u64) -> bool {
        if self.synced {
            last_id <= old
        } else {
            last_id < old
        }
    }

    /// Whether an update follows on a book at `old`: the first one must bridge the snapshot, each
    /// later one must name its predecessor.
    pub open spec fn continues(self, old: u64, first_id: u64, last_id: u64, prev_id: u64) -> bool {
        if self.synced {
            prev_id == old
        } else {
            first_id <= old <= last_id
        }
    }

    /// The book after an update. The result is false where a new snapshot is needed.
    pub open spec fn after_depth(self, e: EventView<R>) -> (BookView<R>, Result<bool, Error>) {
        match e.kind {
            KindView::Depth { symbol, first_id, last_id, prev_id, bids, asks } => {
                if first_id > last_id {
                    (self, Err(Error::InvalidDepthRange))
                } else {
                    match self.last_id {
                        None => if self.buffer.len() >= BUFFER_LIMIT {
                            (self, Err(Error::DepthBufferOverflow))
                        } else {
                            (BookView { buffer: self.buffer.push(e), ..self }, Ok(false))
                        },
                        Some(old) => if self.covers(old, last_id) {
                            (self, Ok(true))
                        } else if !self.continues(old, first_id, last_id, prev_id) {
                            (BookView { buffer: seq![e], ..self.invalidated() }, Ok(false))
                        } else {
                            self.after_next(last_id, bids, asks, e.recv_ns)
                        },
                    }
                }
            },
            _ => (self, Ok(true)),
        }
    }

    /// The book after the update that follows on it. A book without a top is given up.
    pub open spec fn after_next(
        self,
        last_id: u64,
        bids: Seq<[R; 2]>,
        asks: Seq<[R; 2]>,
        recv_ns: u64,
    ) -> (BookView<R>, Result<bool, Error>) {
        let (levels, fault) = self.with_levels(bids, asks);
        if fault is Some {
            (levels, Err(fault->0))
        } else {
            let next = BookView {
                last_id: Some(last_id),
                synced: levels.top() is Some,
                updated_ns: recv_ns,
                ..levels
            };
            if next.synced {
                (next, Ok(true))
            } else {
                (next.invalidated(), Ok(false))
            }
        }
    }

    /// The book after a snapshot: its levels, and the updates that were held back, as far as they
    /// follow on it. All of it is available from the time at which the snapshot was received.
    pub open spec fn after_snapshot(
        self,
        last_id: u64,
        bids: Seq<[R; 2]>,
        asks: Seq<[R; 2]>,
        recv_ns: u64,
    ) -> (BookView<R>, Result<bool, Error>) {
        let cleared = BookView { bids: Map::empty(), asks: Map::empty(), synced: false, ..self };
        let (levels, fault) = cleared.with_levels(bids, asks);
        if fault is Some {
            (levels, Err(fault->0))
        } else {
            BookView {
                last_id: Some(last_id),
                generation: self.generation.wrapping_add(1),
                buffer: Seq::empty(),
                ..levels
            }.after_held(self.buffer, recv_ns)
        }
    }

    /// The book after updates that were held back until `recv_ns`.
    pub open spec fn after_held(self, held: Seq<EventView<R>>, recv_ns: u64) -> (
        BookView<R>,
        Result<bool, Error>,
    )
        decreases held.len(),
    {
        if held.len() == 0 {
            (self, Ok(true))
        } else {
            let (next, r) = self.after_depth(held.first().received_at(recv_ns));
            if r == Ok::<bool, Error>(true) {
                next.after_held(held.drop_first(), recv_ns)
            } else {
                (next, r)
            }
        }
    }

    /// The book after an event. The result is false where a new snapshot is needed.
    pub open spec fn after(self, e: EventView<R>) -> (BookView<R>, Result<bool, Error>) {
        match e.kind {
            KindView::Metadata { symbol, tick, step, min_qty, min_notional } => self.after_metadata(
                Instrument { tick, step, min_qty, min_notional },
            ),
            KindView::Snapshot { symbol, last_id, bids, asks } => self.after_snapshot(
                last_id,
                bids,
                asks,
                e.recv_ns,
            ),
            KindView::Depth { .. } => self.after_depth(e),
            _ => (self, Ok(true)),
        }
    }

    /// Only updates are held back.
    pub open spec fn wf(self) -> bool {
        forall|i: int| 0 <= i < self.buffer.len() ==> (#[trigger] self.buffer[i]).kind is Depth
    }

    /// A book that has seen nothing.
    pub open spec fn blank() -> BookView<R> {
        BookView {
            instrument: None,
            bids: Map::empty(),
            asks: Map::empty(),
            last_id: None,
            synced: false,
            updated_ns: 0,
            generation: 0,
            buffer: Seq::empty(),
        }
    }
}

/// Whether a number is a finite amount above zero.
pub open spec fn is_amount<R: Real>(x: R) -> bool {
    x.spec_is_finite() && is_positive(x)
}

/// Whether a number is a finite amount above zero.
pub fn amount<R: Real>(x: R) -> (r: bool)
    ensures
        r == is_amount(x),
{
    x.is_finite() && positive(x)
}

/// The quantities of the first `n` levels.
pub open spec fn best<R>(levels: Seq<(i64, R)>, n: nat) -> Seq<R> {
    levels.take(
        if n < levels.len() {
            n as int
        } else {
            levels.len() as int
        },
    ).map_values(|l: (i64, R)| l.1)
}

/// Places levels on a side until one is refused.
fn place_levels<R: Real>(m: &mut BTreeMap<i64, R>, levels: &Vec<[R; 2]>, tick: R) -> (r: Result<
    (),
    Error,
>)
    ensures
        final(m)@ == side_after(old(m)@, levels@, tick).0,
        match side_after(old(m)@, levels@, tick).1 {
            Some(fault) => r == Err::<(), Error>(fault),
            None => r == Ok::<(), Error>(()),
        },
{
    let mut i: usize = 0;
    proof {
        assert(levels@.take(0) =~= Seq::<[R; 2]>::empty());
    }
    while i < levels.len()
        invariant
            i <= levels.len(),
            m@ == placed_all(old(m)@, levels@.take(i as int), tick),
            sound_len(levels@.take(i as int), tick) == i,
        decreases levels.len() - i,
    {
        let price: R = levels[i][0];
        let qty: R = levels[i][1];
        proof {
            assert(levels@.take(i + 1).drop_last() =~= levels@.take(i as int));
            assert(levels@.take(i + 1).last() == levels@[i as int]);
        }
        if !(price.is_finite() && positive(price) && qty.is_finite() && R::from_i64(0).within(
            qty,
        )) {
            proof {
                lemma_sound_stops(levels@, i as int, tick);
            }
            return Err(Error::InvalidDepthLevel);
        }
        let units = price.over(tick);
        if !(units.below(R::from_i64(i64::MAX)) && units.minus(units.rounded()).magnitude().below(
            quotient(1, 100_000),
        )) {
            proof {
                lemma_sound_stops(levels@, i as int, tick);
            }
            return Err(Error::OffTickPrice);
        }
        let key: i64 = units.rounded().to_i64();
        if qty.same(R::from_i64(0)) {
            m.remove(&key);
        } else {
            m.insert(key, qty);
        }
        i = i + 1;
    }
    proof {
        assert(levels@.take(levels@.len() as int) =~= levels@);
    }
    Ok(())
}

/// The first refused level bounds the levels that are placed.
proof fn lemma_sound_stops<R: Real>(levels: Seq<[R; 2]>, i: int, tick: R)
    requires
        0 <= i < levels.len(),
        sound_len(levels.take(i), tick) == i,
        level_fault(levels[i], tick) is Some,
    ensures
        sound_len(levels, tick) == i,
    decreases levels.len(),
{
    if i == levels.len() - 1 {
        assert(levels.take(i) =~= levels.drop_last());
    } else {
        assert(levels.drop_last().take(i) =~= levels.take(i));
        lemma_sound_stops(levels.drop_last(), i, tick);
    }
}

impl<R: Real> Default for Book<R> {
    fn default() -> (r: Self)
        ensures
            r@ == BookView::<R>::blank(),
    {
        let book = Book {
            instrument: None,
            bids: BTreeMap::new(),
            asks: BTreeMap::new(),
            last_id: None,
            synced: false,
            updated_ns: 0,
            generation: 0,
            buffer: Vec::new(),
        };
        assert(book@ =~= BookView::<R>::blank());
        book
    }
}

impl<R: Real> Book<R> {
    /// Whether the book holds back nothing but updates.
    pub fn is_sound(&self) -> (r: bool)
        ensures
            r == self@.wf(),
    {
        let mut i: usize = 0;
        while i < self.buffer.len()
            invariant
                i <= self.buffer.len(),
                forall|j: int| 0 <= j < i ==> (#[trigger] self@.buffer[j]).kind is Depth,
            decreases self.buffer.len() - i,
        {
            match &self.buffer[i].kind {
                Kind::Depth { .. } => {},
                _ => {
                    assert(!(self@.buffer[i as int].kind is Depth));
                    return false;
                },
            }
            i = i + 1;
        }
        true
    }

    /// Forgets everything but the instrument.
    pub fn invalidate(&mut self)
        ensures
            final(self)@ == old(self)@.invalidated(),
    {
        self.synced = false;
        self.last_id = None;
        self.bids.clear();
        self.asks.clear();
        self.buffer.clear();
        self.generation = self.generation.wrapping_add(1);
        assert(self@ =~= old(self)@.invalidated());
    }

    /// The best bid and its quantity, the best ask and its quantity, where the book is two-sided
    /// and not crossed.
    pub fn top(&self) -> (r: Option<(R, R, R, R)>)
        ensures
            r == self@.top(),
    {
        match &self.instrument {
            None => None,
            Some(meta) => match last_level(&self.bids) {
                None => None,
                Some((b, bq)) => match first_level(&self.asks) {
                    None => None,
                    Some((a, aq)) => if b < a {
                        Some(
                            (
                                R::from_i64(b).times(meta.tick),
                                bq,
                                R::from_i64(a).times(meta.tick),
                                aq,
                            ),
                        )
                    } else {
                        None
                    },
                },
            },
        }
    }

    /// Halfway between the best bid and the best ask.
    pub fn mid(&self) -> (r: Option<R>)
        ensures
            r == self@.mid(),
    {
        match self.top() {
            Some((b, _, a, _)) => Some(b.plus(a).over(R::from_i64(2))),
            None => None,
        }
    }

    /// Whether the book is synchronized, has a top, and was updated at most `stale_ms` ago.
    pub fn fresh(&self, now: u64, stale_ms: u64) -> (r: bool)
        requires
            stale_ms * MS <= u64::MAX,
        ensures
            r == self@.fresh(now, stale_ms),
    {
        self.synced && self.top().is_some() && now >= self.updated_ns && now - self.updated_ns
            <= stale_ms * MS
    }

    fn update_levels(&mut self, bids: &Vec<[R; 2]>, asks: &Vec<[R; 2]>) -> (r: Result<(), Error>)
        ensures
            final(self)@ == old(self)@.with_levels(bids@, asks@).0,
            match old(self)@.with_levels(bids@, asks@).1 {
                Some(fault) => r == Err::<(), Error>(fault),
                None => r == Ok::<(), Error>(()),
            },
    {
        let tick: R = match &self.instrument {
            None => return Err(Error::MissingMetadata),
            Some(meta) => meta.tick,
        };
        let ghost before = self@;
        let placed_bids = place_levels(&mut self.bids, bids, tick);
        if placed_bids.is_err() {
            assert(self@ =~= before.with_levels(bids@, asks@).0);
            return placed_bids;
        }
        let placed_asks = place_levels(&mut self.asks, asks, tick);
        assert(self@ =~= before.with_levels(bids@, asks@).0);
        placed_asks
    }

    /// Applies an update.
    fn apply_depth(&mut self, e: &Event<R>) -> (r: Result<bool, Error>)
        requires
            old(self)@.wf(),
        ensures
            final(self)@ == old(self)@.after_depth(e@).0,
            r == old(self)@.after_depth(e@).1,
            final(self)@.wf(),
    {
        let ghost before = self@;
        match &e.kind {
            Kind::Depth { first_id, last_id, prev_id, bids, asks, .. } => {
                if *first_id > *last_id {
                    return Err(Error::InvalidDepthRange);
                }
                let old_id: u64 = match self.last_id {
                    None => {
                        if self.buffer.len() >= BUFFER_LIMIT {
                            return Err(Error::DepthBufferOverflow);
                        }
                        self.buffer.push(e.duplicate());
                        assert(self@ =~= before.after_depth(e@).0);
                        return Ok(false);
                    },
                    Some(id) => id,
                };
                if (self.synced && *last_id <= old_id) || (!self.synced && *last_id < old_id) {
                    return Ok(true);
                }
                let contiguous = if self.synced {
                    *prev_id == old_id
                } else {
                    *first_id <= old_id && *last_id >= old_id
                };
                if !contiguous {
                    self.invalidate();
                    self.buffer.push(e.duplicate());
                    assert(self@ =~= before.after_depth(e@).0);
                    return Ok(false);
                }
                match self.update_levels(bids, asks) {
                    Err(fault) => return Err(fault),
                    Ok(()) => {},
                }
                let ghost levels = self@;
                self.last_id = Some(*last_id);
                let two_sided = self.top().is_some();
                self.synced = two_sided;
                self.updated_ns = e.recv_ns;
                assert(self@ =~= BookView {
                    last_id: Some(*last_id),
                    synced: levels.top() is Some,
                    updated_ns: e.recv_ns,
                    ..levels
                });
                if !self.synced {
                    self.invalidate();
                    return Ok(false);
                }
                Ok(true)
            },
            _ => Ok(true),
        }
    }

    /// Applies an event. Returns false when a fresh snapshot is needed.
    pub fn apply(&mut self, e: &Event<R>) -> (r: Result<bool, Error>)
        requires
            old(self)@.wf(),
        ensures
            final(self)@ == old(self)@.after(e@).0,
            r == old(self)@.after(e@).1,
            final(self)@.wf(),
    {
        let ghost before = self@;
        match &e.kind {
            Kind::Metadata { tick, step, min_qty, min_notional, .. } => {
                if !amount(*tick) || !amount(*step) || !amount(*min_qty) || !amount(*min_notional) {
                    return Err(Error::InvalidInstrument);
                }
                let changed = match &self.instrument {
                    Some(old_meta) => !old_meta.tick.same(*tick) || !old_meta.step.same(*step),
                    None => false,
                };
                if changed {
                    self.invalidate();
                }
                self.instrument = Some(
                    Instrument {
                        tick: *tick,
                        step: *step,
                        min_qty: *min_qty,
                        min_notional: *min_notional,
                    },
                );
                assert(self@ =~= before.after(e@).0);
                Ok(true)
            },
            Kind::Snapshot { last_id, bids, asks, .. } => {
                self.bids.clear();
                self.asks.clear();
                self.synced = false;
                assert(self@ =~= BookView {
                    bids: Map::empty(),
                    asks: Map::empty(),
                    synced: false,
                    ..before
                });
                match self.update_levels(bids, asks) {
                    Err(fault) => return Err(fault),
                    Ok(()) => {},
                }
                let ghost levels = self@;
                self.last_id = Some(*last_id);
                self.generation = self.generation.wrapping_add(1);
                let mut held: Vec<Event<R>> = Vec::new();
                std::mem::swap(&mut held, &mut self.buffer);
                assert(self@ =~= BookView {
                    last_id: Some(*last_id),
                    generation: before.generation.wrapping_add(1),
                    buffer: Seq::empty(),
                    ..levels
                });
                assert(event_views(held@) =~= before.buffer);
                self.apply_held(held, e.recv_ns)
            },
            Kind::Depth { .. } => self.apply_depth(e),
            _ => Ok(true),
        }
    }

    /// Applies updates that were held back. What they say becomes available at `recv_ns`, never at
    /// the time at which they were received.
    fn apply_held(&mut self, updates: Vec<Event<R>>, recv_ns: u64) -> (r: Result<bool, Error>)
        requires
            old(self)@.wf(),
        ensures
            final(self)@ == old(self)@.after_held(event_views(updates@), recv_ns).0,
            r == old(self)@.after_held(event_views(updates@), recv_ns).1,
            final(self)@.wf(),
    {
        let mut held = updates;
        let mut i: usize = 0;
        let ghost all = event_views(updates@);
        proof {
            assert(all.skip(0) =~= all);
        }
        while i < held.len()
            invariant
                i <= held.len(),
                all == event_views(updates@),
                held@.len() == all.len(),
                forall|k: int| i <= k < all.len() ==> held@[k]@ == all[k],
                self@.wf(),
                self@.after_held(all.skip(i as int), recv_ns) == old(self)@.after_held(
                    all,
                    recv_ns,
                ),
            decreases held.len() - i,
        {
            held[i].recv_ns = recv_ns;
            let ghost waiting = all.skip(i as int);
            proof {
                assert(waiting.drop_first() =~= all.skip(i + 1));
                assert(held@[i as int]@ =~= all[i as int].received_at(recv_ns));
            }
            let r = self.apply_depth(&held[i]);
            match r {
                Ok(true) => {},
                other => return other,
            }
            i = i + 1;
        }
        Ok(true)
    }

    /// The share by which the best `n` bids outweigh the best `n` asks.
    pub fn imbalance(&self, n: usize) -> (r: R)
        ensures
            r == self@.imbalance(n as nat),
    {
        let bids = climb(&self.bids);
        let asks = climb(&self.asks);
        let mut b: R = empty_sum();
        let mut i: usize = 0;
        while i < n && i < bids.len()
            invariant
                i <= bids.len(),
                i <= n,
                bids@ == upward(self@.bids),
                b == total(best(downward(self@.bids), i as nat)),
            decreases bids.len() - i,
        {
            proof {
                let down = downward(self@.bids);
                assert(best(down, (i + 1) as nat) =~= best(down, i as nat).push(
                    bids@[bids@.len() - 1 - i].1,
                ));
                lemma_total_push(best(down, i as nat), bids@[bids@.len() - 1 - i].1);
            }
            b = b.plus(bids[bids.len() - 1 - i].1);
            i = i + 1;
        }
        let mut a: R = empty_sum();
        let mut j: usize = 0;
        while j < n && j < asks.len()
            invariant
                j <= asks.len(),
                j <= n,
                asks@ == upward(self@.asks),
                a == total(best(upward(self@.asks), j as nat)),
            decreases asks.len() - j,
        {
            proof {
                let up = upward(self@.asks);
                assert(best(up, (j + 1) as nat) =~= best(up, j as nat).push(asks@[j as int].1));
                lemma_total_push(best(up, j as nat), asks@[j as int].1);
            }
            a = a.plus(asks[j].1);
            j = j + 1;
        }
        proof {
            assert(best(downward(self@.bids), i as nat) =~= best(downward(self@.bids), n as nat));
            assert(best(upward(self@.asks), j as nat) =~= best(upward(self@.asks), n as nat));
        }
        if positive(a.plus(b)) {
            b.minus(a).over(b.plus(a))
        } else {
            R::from_i64(0)
        }
    }
}

} // verus!
