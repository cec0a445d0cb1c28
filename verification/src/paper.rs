//! Paper execution: simulated taker orders against the displayed book.
use crate::book::{price_key, Book, BookView, Instrument};
use crate::config::Config;
use crate::error::Error;
use crate::features::mid_at;
use crate::ladder::{climb, downward, upward};
use crate::number::{empty_sum, is_positive, is_zero, lemma_total_push, nil, positive, quotient, ratio, sum2, total, total2, whole, zero, Real};
use crate::text::{find_text, place_of};
use crate::types::{Event, EventView, Kind, KindView, MS};
use std::collections::{BTreeMap, BTreeSet};
use vstd::prelude::*;

verus! {

broadcast use vstd::std_specs::btree::group_btree_axioms;

/// Nanoseconds in a day.
pub const DAY: u64 = 86_400_000_000_000;

/// What is held of one asset.
#[derive(Clone, Copy, Debug)]
pub struct Position<R> {
    pub qty: R,
    pub entry: R,
    pub exit_due_ns: u64,
}

/// An order on its way to the market.
#[derive(Clone, Copy, Debug)]
pub struct Order<R> {
    pub side: R,
    pub qty: R,
    pub arrival_ns: u64,
    pub reduce: bool,
    pub decision_mid: R,
}

/// One line of the order journal.
#[derive(Clone, Debug)]
pub struct Journal<R> {
    pub seq: u64,
    pub recv_ns: u64,
    pub symbol: String,
    pub action: String,
    pub qty: R,
    pub price: R,
    pub fee: R,
    pub value: R,
    pub reason: String,
}

/// The results of one asset.
#[derive(Clone, Copy, Debug)]
pub struct SymbolStats<R> {
    pub realized: R,
    pub unrealized: R,
    pub fees: R,
    pub funding: R,
    pub turnover: R,
    pub slippage: R,
    pub fills: u64,
    pub rejected: u64,
}

/// The account: money, positions, pending orders, limits and results.
#[derive(Clone, Debug)]
pub struct Broker<R> {
    pub cash: R,
    pub positions: [Position<R>; 2],
    pub pending: [Option<Order<R>>; 2],
    pub fees: R,
    pub funding: R,
    pub realized: R,
    pub turnover: R,
    pub slippage: R,
    pub rejected: u64,
    pub equity: R,
    pub peak: R,
    pub max_drawdown: R,
    pub day: u64,
    pub day_start: R,
    pub stopped: bool,
    pub exposure_unpriced: bool,
    pub last_mids: [R; 2],
    /// Bids and asks of the first asset, bids and asks of the second: what was taken at a price.
    pub consumed: [BTreeMap<i64, R>; 4],
    /// The settlement times that were paid, for each asset.
    pub funding_seen: [BTreeSet<u64>; 2],
    pub position_history: [Vec<(u64, R)>; 2],
    /// BTC, ETH in configuration order.
    pub per_symbol: [SymbolStats<R>; 2],
}

/// The mathematical content of a [`Journal`] line.
#[verifier::ext_equal]
pub struct JournalView<R> {
    pub seq: u64,
    pub recv_ns: u64,
    pub symbol: Seq<char>,
    pub action: Seq<char>,
    pub qty: R,
    pub price: R,
    pub fee: R,
    pub value: R,
    pub reason: Seq<char>,
}

/// The mathematical content of a [`Broker`].
#[verifier::ext_equal]
pub struct BrokerView<R> {
    pub cash: R,
    pub positions: Seq<Position<R>>,
    pub pending: Seq<Option<Order<R>>>,
    pub fees: R,
    pub funding: R,
    pub realized: R,
    pub turnover: R,
    pub slippage: R,
    pub rejected: u64,
    pub equity: R,
    pub peak: R,
    pub max_drawdown: R,
    pub day: u64,
    pub day_start: R,
    pub stopped: bool,
    pub exposure_unpriced: bool,
    pub last_mids: Seq<R>,
    pub consumed: Seq<Map<i64, R>>,
    pub funding_seen: Seq<Set<u64>>,
    pub position_history: Seq<Seq<(u64, R)>>,
    pub per_symbol: Seq<SymbolStats<R>>,
}

impl<R> View for Journal<R> {
    type V = JournalView<R>;

    open spec fn view(&self) -> JournalView<R> {
        JournalView {
            seq: self.seq,
            recv_ns: self.recv_ns,
            symbol: self.symbol@,
            action: self.action@,
            qty: self.qty,
            price: self.price,
            fee: self.fee,
            value: self.value,
            reason: self.reason@,
        }
    }
}

/// The mathematical content of a list of journal lines.
pub open spec fn journal_views<R>(rows: Seq<Journal<R>>) -> Seq<JournalView<R>> {
    rows.map_values(|row: Journal<R>| row@)
}

impl<R> View for Broker<R> {
    type V = BrokerView<R>;

    open spec fn view(&self) -> BrokerView<R> {
        BrokerView {
            cash: self.cash,
            positions: self.positions@,
            pending: self.pending@,
            fees: self.fees,
            funding: self.funding,
            realized: self.realized,
            turnover: self.turnover,
            slippage: self.slippage,
            rejected: self.rejected,
            equity: self.equity,
            peak: self.peak,
            max_drawdown: self.max_drawdown,
            day: self.day,
            day_start: self.day_start,
            stopped: self.stopped,
            exposure_unpriced: self.exposure_unpriced,
            last_mids: self.last_mids@,
            consumed: seq![
                self.consumed[0]@,
                self.consumed[1]@,
                self.consumed[2]@,
                self.consumed[3]@,
            ],
            funding_seen: seq![self.funding_seen[0]@, self.funding_seen[1]@],
            position_history: seq![self.position_history[0]@, self.position_history[1]@],
            per_symbol: self.per_symbol@,
        }
    }
}

/// A journal line that says only what happened to which asset, and why.
pub open spec fn row_of<R: Real>(
    e: EventView<R>,
    c: Config<R>,
    i: int,
    action: Seq<char>,
    reason: Seq<char>,
) -> JournalView<R> {
    JournalView {
        seq: e.seq,
        recv_ns: e.recv_ns,
        symbol: c.names()[i],
        action,
        qty: zero::<R>(),
        price: zero::<R>(),
        fee: zero::<R>(),
        value: zero::<R>(),
        reason,
    }
}

/// No position.
pub open spec fn flat<R: Real>() -> Position<R> {
    Position { qty: zero::<R>(), entry: zero::<R>(), exit_due_ns: 0 }
}

/// No results.
pub open spec fn no_stats<R: Real>() -> SymbolStats<R> {
    SymbolStats {
        realized: zero::<R>(),
        unrealized: zero::<R>(),
        fees: zero::<R>(),
        funding: zero::<R>(),
        turnover: zero::<R>(),
        slippage: zero::<R>(),
        fills: 0,
        rejected: 0,
    }
}

/// What a position has gained at a price.
pub open spec fn gain<R: Real>(p: Position<R>, price: R) -> R {
    p.qty.spec_times(price.spec_minus(p.entry))
}

/// What a map says of a key, or zero.
pub open spec fn at_or_zero<R: Real>(m: Map<i64, R>, k: i64) -> R {
    if m.contains_key(k) {
        m[k]
    } else {
        zero::<R>()
    }
}

/// How much of a level an order takes: what is left of it, or of the level, in whole steps.
pub open spec fn take_of<R: Real>(left: R, q: R, used: R, step: R) -> R {
    let available = q.spec_minus(used).spec_larger(zero::<R>());
    left.spec_smaller(available).spec_over(step).spec_plus(
        ratio::<R>(1, 1_000_000_000),
    ).spec_floored().spec_times(step)
}

/// The fills of an order that walks levels, best first: at each its key, quantity and price. It
/// stops where less than half a step is left.
pub open spec fn walk<R: Real>(
    levels: Seq<(i64, R)>,
    used: Map<i64, R>,
    left: R,
    meta: Instrument<R>,
) -> Seq<(i64, R, R)>
    decreases levels.len(),
{
    if levels.len() == 0 {
        Seq::empty()
    } else {
        let (p, q) = levels.first();
        let take = take_of(left, q, at_or_zero(used, p), meta.step);
        let fill = if is_positive(take) {
            seq![(p, take, whole::<R>(p).spec_times(meta.tick))]
        } else {
            Seq::empty()
        };
        let rest = if is_positive(take) {
            left.spec_minus(take)
        } else {
            left
        };
        if rest.spec_below(meta.step.spec_times(ratio::<R>(1, 2))) {
            fill
        } else {
            fill + walk(levels.drop_first(), used, rest, meta)
        }
    }
}

/// The quantities of fills.
pub open spec fn fill_sizes<R>(fills: Seq<(i64, R, R)>) -> Seq<R> {
    fills.map_values(|f: (i64, R, R)| f.1)
}

/// The values of fills.
pub open spec fn fill_values<R: Real>(fills: Seq<(i64, R, R)>) -> Seq<R> {
    fills.map_values(|f: (i64, R, R)| f.1.spec_times(f.2))
}

/// Which side of which asset an order takes from.
pub open spec fn side_index<R: Real>(i: int, side: R) -> int {
    if is_positive(side) {
        2 * i + 1
    } else {
        2 * i
    }
}

/// What was taken, after fills.
pub open spec fn depleted<R: Real>(m: Map<i64, R>, fills: Seq<(i64, R, R)>) -> Map<i64, R>
    decreases fills.len(),
{
    if fills.len() == 0 {
        m
    } else {
        let before = depleted(m, fills.drop_last());
        let (p, q, _) = fills.last();
        before.insert(p, at_or_zero(before, p).spec_plus(q))
    }
}

/// What was taken, after levels were displayed anew.
pub open spec fn restored<R: Real>(m: Map<i64, R>, levels: Seq<[R; 2]>, tick: R) -> Map<i64, R>
    decreases levels.len(),
{
    if levels.len() == 0 {
        m
    } else {
        restored(m, levels.drop_last(), tick).remove(price_key(levels.last()[0], tick))
    }
}

/// The value that an asset counts with against the gross limit: its position and a pending entry.
pub open spec fn exposure<R: Real>(p: Position<R>, mid: R, pending: Option<Order<R>>) -> R {
    p.qty.spec_magnitude().spec_times(mid).spec_plus(
        match pending {
            Some(o) => if o.reduce {
                zero::<R>()
            } else {
                o.qty.spec_times(o.decision_mid)
            },
            None => zero::<R>(),
        },
    )
}

/// Whether an order is an entry.
pub open spec fn is_entry<R>(pending: Option<Order<R>>) -> bool {
    pending is Some && !pending->0.reduce
}

impl<R: Real> BrokerView<R> {
    /// An account that holds nothing but its equity.
    pub open spec fn opened(equity: R) -> BrokerView<R> {
        BrokerView {
            cash: equity,
            positions: seq![flat::<R>(), flat::<R>()],
            pending: seq![None, None],
            fees: zero::<R>(),
            funding: zero::<R>(),
            realized: zero::<R>(),
            turnover: zero::<R>(),
            slippage: zero::<R>(),
            rejected: 0,
            equity,
            peak: equity,
            max_drawdown: zero::<R>(),
            day: 0,
            day_start: equity,
            stopped: false,
            exposure_unpriced: false,
            last_mids: seq![zero::<R>(), zero::<R>()],
            consumed: seq![Map::empty(), Map::empty(), Map::empty(), Map::empty()],
            funding_seen: seq![Set::empty(), Set::empty()],
            position_history: seq![Seq::empty(), Seq::empty()],
            per_symbol: seq![no_stats::<R>(), no_stats::<R>()],
        }
    }

    /// The fills that an order for a quantity would have now.
    pub open spec fn fills(self, i: int, side: R, book: BookView<R>, qty: R) -> Seq<(i64, R, R)> {
        match book.instrument {
            None => Seq::empty(),
            Some(meta) => walk(
                if is_positive(side) {
                    upward(book.asks)
                } else {
                    downward(book.bids)
                },
                self.consumed[side_index(i, side)],
                qty,
                meta,
            ),
        }
    }

    /// The gross exposure, with what pending entries would add.
    pub open spec fn gross(self) -> R {
        total2(
            exposure(self.positions[0], self.last_mids[0], self.pending[0]),
            exposure(self.positions[1], self.last_mids[1], self.pending[1]),
        )
    }

    /// The price of an asset: the mid of its book where that is fresh, else the last one known.
    pub open spec fn price_of(self, i: int, book: BookView<R>, now: u64, c: Config<R>) -> R {
        if book.fresh(now, c.stale_ms) {
            book.mid()->0
        } else {
            self.last_mids[i]
        }
    }

    /// The account valued at the current prices. A position without a fresh book keeps its last
    /// price and is flagged.
    pub open spec fn marked(self, books: Seq<BookView<R>>, now: u64, c: Config<R>) -> BrokerView<R> {
        let m0 = self.price_of(0, books[0], now, c);
        let m1 = self.price_of(1, books[1], now, c);
        let g0 = gain(self.positions[0], m0);
        let g1 = gain(self.positions[1], m1);
        let equity = self.cash.spec_plus(total2(g0, g1));
        let peak = self.peak.spec_larger(equity);
        BrokerView {
            exposure_unpriced: (!books[0].fresh(now, c.stale_ms) && !is_zero(
                self.positions[0].qty,
            )) || (!books[1].fresh(now, c.stale_ms) && !is_zero(self.positions[1].qty)),
            last_mids: seq![m0, m1],
            per_symbol: seq![
                SymbolStats { unrealized: g0, ..self.per_symbol[0] },
                SymbolStats { unrealized: g1, ..self.per_symbol[1] },
            ],
            equity,
            peak,
            max_drawdown: self.max_drawdown.spec_larger(peak.spec_minus(equity)),
            ..self
        }
    }

    /// The account on a day. A new day starts its loss count afresh and lifts the stop.
    pub open spec fn on_day(self, day: u64) -> BrokerView<R> {
        if day > self.day {
            BrokerView { day, day_start: self.equity, stopped: false, ..self }
        } else {
            self
        }
    }

    /// Whether a pending entry must go.
    pub open spec fn cancels(self, i: int, valid: bool) -> bool {
        (!valid || self.stopped) && is_entry(self.pending[i])
    }

    /// The account without an entry that must go.
    pub open spec fn after_cancel(self, i: int, valid: bool) -> BrokerView<R> {
        if self.cancels(i, valid) {
            BrokerView { pending: self.pending.update(i, None), ..self }
        } else {
            self
        }
    }

    /// Whether a position must be closed and no order is on its way.
    pub open spec fn exits(self, i: int, now: u64) -> bool {
        &&& !is_zero(self.positions[i].qty)
        &&& self.pending[i] is None
        &&& self.stopped || now >= self.positions[i].exit_due_ns
    }

    /// The order that closes a position.
    pub open spec fn exit_order(self, i: int, now: u64, c: Config<R>) -> Order<R> {
        Order {
            side: self.positions[i].qty.spec_sign().spec_negated(),
            qty: self.positions[i].qty.spec_magnitude(),
            arrival_ns: (now + c.latency_ms * MS) as u64,
            reduce: true,
            decision_mid: self.last_mids[i],
        }
    }

    /// The account with an exit order where one is due.
    pub open spec fn after_exit(self, i: int, now: u64, c: Config<R>) -> BrokerView<R> {
        if self.exits(i, now) {
            BrokerView {
                pending: self.pending.update(i, Some(self.exit_order(i, now, c))),
                ..self
            }
        } else {
            self
        }
    }

    /// The account after the rules for one asset: cancel an entry that must go, then close a
    /// position that is due.
    pub open spec fn watched(self, i: int, e: EventView<R>, c: Config<R>, valid: bool) -> (
        BrokerView<R>,
        Seq<JournalView<R>>,
    ) {
        let kept = self.after_cancel(i, valid);
        (
            kept.after_exit(i, e.recv_ns, c),
            (if self.cancels(i, valid) {
                seq![row_of(e, c, i, "cancel"@, "invalid data or daily loss stop"@)]
            } else {
                Seq::empty()
            }) + (if kept.exits(i, e.recv_ns) {
                seq![
                    row_of(
                        e,
                        c,
                        i,
                        "exit_submitted"@,
                        if self.stopped {
                            "daily loss stop"@
                        } else {
                            "holding horizon elapsed"@
                        },
                    ),
                ]
            } else {
                Seq::empty()
            }),
        )
    }

    /// The account with the daily loss stop set where the loss has reached it.
    pub open spec fn stop_checked(self, c: Config<R>) -> BrokerView<R> {
        BrokerView {
            stopped: self.stopped || c.daily_loss.spec_within(
                self.day_start.spec_minus(self.equity),
            ),
            ..self
        }
    }

    /// The account after the loss stop and the rules for both assets.
    pub open spec fn enforced(self, e: EventView<R>, c: Config<R>, valid: bool) -> (
        BrokerView<R>,
        Seq<JournalView<R>>,
    ) {
        let (first, a) = self.stop_checked(c).watched(0, e, c, valid);
        let (second, b) = first.watched(1, e, c, valid);
        (second, a + b)
    }

    /// What was taken of each side, after an event: a disconnection or a snapshot forgets it, an
    /// applied update forgets it at the prices that it displays anew.
    pub open spec fn consumed_after(
        self,
        e: EventView<R>,
        books: Seq<BookView<R>>,
        c: Config<R>,
        updated: Option<usize>,
    ) -> Seq<Map<i64, R>> {
        let i = place_of(c.names(), e.kind.symbol()->0)->0;
        match e.kind {
            KindView::Disconnect { .. } => seq![
                Map::empty(),
                Map::empty(),
                Map::empty(),
                Map::empty(),
            ],
            KindView::Snapshot { .. } => self.consumed.update(2 * i, Map::empty()).update(
                2 * i + 1,
                Map::empty(),
            ),
            KindView::Depth { symbol, first_id, last_id, prev_id, bids, asks } => if updated
                == Some(i as usize) && books[i].instrument is Some {
                let tick = books[i].instrument->0.tick;
                self.consumed.update(2 * i, restored(self.consumed[2 * i], bids, tick)).update(
                    2 * i + 1,
                    restored(self.consumed[2 * i + 1], asks, tick),
                )
            } else {
                self.consumed
            },
            _ => self.consumed,
        }
    }

    /// What was held of an asset at a time.
    pub open spec fn held_at(self, i: int, t: u64) -> R {
        match mid_at(self.position_history[i], t) {
            Some(qty) => qty,
            None => zero::<R>(),
        }
    }

    /// What a settlement pays to the account.
    pub open spec fn payment(self, i: int, funding_ns: u64, rate: R, mark: R) -> R {
        self.held_at(i, funding_ns).spec_negated().spec_times(mark).spec_times(rate)
    }

    /// The account after a funding settlement, which is paid once.
    pub open spec fn funded(self, i: int, funding_ns: u64, rate: R, mark: R) -> BrokerView<R> {
        if self.funding_seen[i].contains(funding_ns) {
            self
        } else {
            let payment = self.payment(i, funding_ns, rate, mark);
            BrokerView {
                funding_seen: self.funding_seen.update(i, self.funding_seen[i].insert(funding_ns)),
                cash: self.cash.spec_plus(payment),
                funding: self.funding.spec_plus(payment),
                per_symbol: self.per_symbol.update(
                    i,
                    SymbolStats {
                        funding: self.per_symbol[i].funding.spec_plus(payment),
                        ..self.per_symbol[i]
                    },
                ),
                ..self
            }
        }
    }

    /// The account after what an event says of liquidity and funding, with the journal lines of a
    /// settlement.
    pub open spec fn informed(
        self,
        e: EventView<R>,
        books: Seq<BookView<R>>,
        c: Config<R>,
        updated: Option<usize>,
    ) -> (BrokerView<R>, Result<Seq<JournalView<R>>, Error>) {
        let base = BrokerView { consumed: self.consumed_after(e, books, c, updated), ..self };
        match e.kind {
            KindView::Funding { symbol, funding_ns, rate, mark } => {
                let i = place_of(c.names(), symbol)->0;
                if !(rate.spec_is_finite() && mark.spec_is_finite() && is_positive(mark)) {
                    (self, Err(Error::InvalidFunding))
                } else {
                    (
                        base.funded(i, funding_ns, rate, mark),
                        Ok(
                            if self.funding_seen[i].contains(funding_ns) {
                                Seq::empty()
                            } else {
                                seq![
                                    JournalView {
                                        value: self.payment(i, funding_ns, rate, mark),
                                        ..row_of(
                                            e,
                                            c,
                                            i,
                                            "funding"@,
                                            "settled historical funding"@,
                                        )
                                    },
                                ]
                            },
                        ),
                    )
                }
            },
            _ => (base, Ok(Seq::empty())),
        }
    }

    /// Whether the pending order of an asset can trade on an update: it has arrived, the book is
    /// fresh, and an entry needs valid data.
    pub open spec fn due(
        self,
        i: int,
        e: EventView<R>,
        books: Seq<BookView<R>>,
        c: Config<R>,
        valid: bool,
    ) -> bool {
        &&& self.pending[i] is Some
        &&& e.recv_ns >= self.pending[i]->0.arrival_ns
        &&& books[i].fresh(e.recv_ns, c.stale_ms)
        &&& self.pending[i]->0.reduce || valid
    }

    /// Whether the fill of an entry breaks the instrument's rules or the gross limit. The entry's
    /// own reservation is not counted twice.
    pub open spec fn refuses(self, o: Order<R>, qty: R, price: R, meta: Instrument<R>, c: Config<R>) -> bool {
        let value = qty.spec_times(price);
        let projected = self.gross().spec_minus(o.qty.spec_times(o.decision_mid)).spec_plus(value);
        !o.reduce && (qty.spec_below(meta.min_qty) || value.spec_below(meta.min_notional)
            || c.gross_cap.spec_below(projected))
    }

    /// The account after an order was refused.
    pub open spec fn refused(self, i: int) -> BrokerView<R> {
        BrokerView {
            pending: self.pending.update(i, None),
            ..self.counted_rejection(i)
        }
    }

    /// The account with one more rejection.
    pub open spec fn counted_rejection(self, i: int) -> BrokerView<R> {
        BrokerView {
            rejected: self.rejected.wrapping_add(1),
            per_symbol: self.per_symbol.update(
                i,
                SymbolStats {
                    rejected: self.per_symbol[i].rejected.wrapping_add(1),
                    ..self.per_symbol[i]
                },
            ),
            ..self
        }
    }

    /// What a closing fill realizes.
    pub open spec fn realized_by(self, i: int, qty: R, price: R) -> R {
        qty.spec_times(self.positions[i].qty.spec_sign()).spec_times(
            price.spec_minus(self.positions[i].entry),
        )
    }

    /// The position after a fill. A remainder of less than half a step is no position.
    pub open spec fn position_after(
        self,
        i: int,
        o: Order<R>,
        qty: R,
        price: R,
        meta: Instrument<R>,
        now: u64,
        c: Config<R>,
    ) -> Position<R> {
        if o.reduce {
            let rest = self.positions[i].qty.spec_plus(o.side.spec_times(qty));
            if rest.spec_magnitude().spec_below(meta.step.spec_times(ratio::<R>(1, 2))) {
                flat::<R>()
            } else {
                Position { qty: rest, ..self.positions[i] }
            }
        } else {
            Position {
                qty: o.side.spec_times(qty),
                entry: price,
                exit_due_ns: (now + c.horizon_ms * MS) as u64,
            }
        }
    }

    /// The account after a fill at an average price: liquidity is taken, the fee is paid, and the
    /// position opened or reduced.
    pub open spec fn filled(
        self,
        i: int,
        o: Order<R>,
        fills: Seq<(i64, R, R)>,
        qty: R,
        price: R,
        meta: Instrument<R>,
        e: EventView<R>,
        c: Config<R>,
    ) -> BrokerView<R> {
        let k = side_index(i, o.side);
        let value = qty.spec_times(price);
        let fee = fee_of(qty, price, c);
        let slip = o.side.spec_times(price.spec_minus(o.decision_mid)).spec_times(qty);
        let pnl = self.realized_by(i, qty, price);
        let paid = self.cash.spec_minus(fee);
        let position = self.position_after(i, o, qty, price, meta, e.recv_ns, c);
        let stats = SymbolStats {
            fees: self.per_symbol[i].fees.spec_plus(fee),
            turnover: self.per_symbol[i].turnover.spec_plus(value),
            slippage: self.per_symbol[i].slippage.spec_plus(slip),
            fills: self.per_symbol[i].fills.wrapping_add(1),
            realized: if o.reduce {
                self.per_symbol[i].realized.spec_plus(pnl)
            } else {
                self.per_symbol[i].realized
            },
            ..self.per_symbol[i]
        };
        BrokerView {
            consumed: self.consumed.update(k, depleted(self.consumed[k], fills)),
            cash: if o.reduce {
                paid.spec_plus(pnl)
            } else {
                paid
            },
            fees: self.fees.spec_plus(fee),
            turnover: self.turnover.spec_plus(value),
            slippage: self.slippage.spec_plus(slip),
            realized: if o.reduce {
                self.realized.spec_plus(pnl)
            } else {
                self.realized
            },
            per_symbol: self.per_symbol.update(i, stats),
            positions: self.positions.update(i, position),
            position_history: self.position_history.update(
                i,
                self.position_history[i].push((e.utc_ns, position.qty)),
            ),
            ..self
        }
    }

    /// The order that remains after a fill: an exit tries again after another delay, an entry does
    /// not.
    pub open spec fn remainder(o: Order<R>, qty: R, meta: Instrument<R>, now: u64, c: Config<R>) -> Option<
        Order<R>,
    > {
        let left = o.qty.spec_minus(qty);
        if o.reduce && meta.step.spec_times(ratio::<R>(1, 2)).spec_below(left) {
            Some(Order { qty: left, arrival_ns: (now + c.latency_ms * MS) as u64, ..o })
        } else {
            None
        }
    }

    /// The account after its pending order met the book, with the journal lines, and whether the
    /// order was refused.
    pub open spec fn traded(
        self,
        i: int,
        e: EventView<R>,
        books: Seq<BookView<R>>,
        c: Config<R>,
    ) -> (BrokerView<R>, Seq<JournalView<R>>, bool) {
        let o = self.pending[i]->0;
        let meta = books[i].instrument->0;
        let fills = self.fills(i, o.side, books[i], o.qty);
        let qty = total(fill_sizes(fills));
        let price = total(fill_values(fills)).spec_over(qty);
        if is_positive(qty) && self.refuses(o, qty, price, meta, c) {
            (
                self.refused(i),
                seq![row_of(e, c, i, "reject"@, "fill violates instrument or gross limit"@)],
                true,
            )
        } else {
            let after = if is_positive(qty) {
                self.filled(i, o, fills, qty, price, meta, e, c)
            } else {
                self
            };
            let fill_rows = if is_positive(qty) {
                seq![
                    JournalView {
                        qty: o.side.spec_times(qty),
                        price,
                        fee: fee_of(qty, price, c),
                        ..row_of(
                            e,
                            c,
                            i,
                            "fill"@,
                            if o.reduce {
                                "exit"@
                            } else {
                                "entry"@
                            },
                        )
                    },
                ]
            } else {
                Seq::empty()
            };
            let cancel_rows = if !o.reduce && ratio::<R>(1, 1_000_000_000_000).spec_below(
                o.qty.spec_minus(qty),
            ) {
                seq![row_of(e, c, i, "cancel"@, "unfilled IOC entry remainder"@)]
            } else {
                Seq::empty()
            };
            (
                BrokerView {
                    pending: self.pending.update(
                        i,
                        Self::remainder(o, qty, meta, e.recv_ns, c),
                    ),
                    ..after
                },
                fill_rows + cancel_rows,
                false,
            )
        }
    }

    /// The account after the rules that precede a fill.
    pub open spec fn prepared(
        self,
        e: EventView<R>,
        books: Seq<BookView<R>>,
        c: Config<R>,
        valid: bool,
    ) -> (BrokerView<R>, Seq<JournalView<R>>) {
        self.marked(books, e.recv_ns, c).on_day((e.utc_ns / DAY) as u64).enforced(e, c, valid)
    }

    /// The account after an event, with the journal lines that it causes.
    #[verifier::opaque]
    pub open spec fn after(
        self,
        e: EventView<R>,
        books: Seq<BookView<R>>,
        c: Config<R>,
        updated: Option<usize>,
        valid: bool,
    ) -> (BrokerView<R>, Result<Seq<JournalView<R>>, Error>) {
        let (told, news) = self.informed(e, books, c, updated);
        if news is Err {
            (told, news)
        } else {
            let (ready, rules) = told.prepared(e, books, c, valid);
            if updated is Some && ready.due(updated->0 as int, e, books, c, valid) {
                let (met, trades, refused) = ready.traded(updated->0 as int, e, books, c);
                if refused {
                    (met, Ok(news->Ok_0 + rules + trades))
                } else {
                    let (last, more) = met.marked(books, e.recv_ns, c).enforced(e, c, valid);
                    (last, Ok(news->Ok_0 + rules + trades + more))
                }
            } else {
                let (last, more) = ready.marked(books, e.recv_ns, c).enforced(e, c, valid);
                (last, Ok(news->Ok_0 + rules + more))
            }
        }
    }

    /// Whether the account can open a position in an asset.
    pub open spec fn is_free(self, i: int) -> bool {
        !self.stopped && is_zero(self.positions[i].qty) && self.pending[i] is None
    }

    /// The account after a prediction, with the journal lines.
    pub open spec fn decided(
        self,
        i: int,
        prediction: R,
        buffer: R,
        e: EventView<R>,
        books: Seq<BookView<R>>,
        c: Config<R>,
    ) -> (BrokerView<R>, Seq<JournalView<R>>) {
        let signal = JournalView { value: prediction, ..row_of(e, c, i, "prediction"@, ""@) };
        let mid = books[i].mid()->0;
        let meta = books[i].instrument->0;
        let qty = entry_size(mid, meta, c);
        let side = prediction.spec_sign();
        let entry = self.fills(i, side, books[i], qty);
        let exit = self.fills(i, side.spec_negated(), books[i], qty);
        let cost = round_trip_cost(side, entry, exit, qty, mid, buffer, c);
        if !self.is_free(i) || is_zero(side) || qty.spec_below(meta.min_qty) || qty.spec_times(
            mid,
        ).spec_below(meta.min_notional) || !is_enough(entry, qty) || !is_enough(exit, qty)
            || prediction.spec_magnitude().spec_within(cost) {
            (self, seq![signal])
        } else if c.gross_cap.spec_below(self.gross().spec_plus(qty.spec_times(mid))) {
            (
                self.counted_rejection(i),
                seq![
                    signal,
                    row_of(e, c, i, "reject"@, "gross exposure including pending entries"@),
                ],
            )
        } else {
            (
                BrokerView {
                    pending: self.pending.update(
                        i,
                        Some(
                            Order {
                                side,
                                qty,
                                arrival_ns: (e.recv_ns + c.latency_ms * MS) as u64,
                                reduce: false,
                                decision_mid: mid,
                            },
                        ),
                    ),
                    ..self
                },
                seq![
                    signal,
                    JournalView {
                        qty: side.spec_times(qty),
                        value: cost,
                        ..row_of(
                            e,
                            c,
                            i,
                            "entry_submitted"@,
                            "prediction exceeds round-trip costs"@,
                        )
                    },
                ],
            )
        }
    }
}

/// The fee of a fill.
pub open spec fn fee_of<R: Real>(qty: R, price: R, c: Config<R>) -> R {
    qty.spec_times(price).spec_times(c.fee_bps).spec_over(whole::<R>(10_000))
}

/// The quantity of an entry: what the entry notional buys at the mid, in whole steps.
pub open spec fn entry_size<R: Real>(mid: R, meta: Instrument<R>, c: Config<R>) -> R {
    c.entry_notional.spec_over(mid).spec_over(meta.step).spec_floored().spec_times(meta.step)
}

/// Whether fills cover a quantity.
pub open spec fn is_enough<R: Real>(fills: Seq<(i64, R, R)>, qty: R) -> bool {
    qty.spec_within(total(fill_sizes(fills)).spec_plus(ratio::<R>(1, 1_000_000_000_000)))
}

/// The average price of fills that make up a quantity.
pub open spec fn average_price<R: Real>(fills: Seq<(i64, R, R)>, qty: R) -> R {
    total(fill_values(fills)).spec_over(qty)
}

/// What entering and leaving at once would cost, in basis points, with fees and the buffer.
pub open spec fn round_trip_cost<R: Real>(
    side: R,
    entry: Seq<(i64, R, R)>,
    exit: Seq<(i64, R, R)>,
    qty: R,
    mid: R,
    buffer: R,
    c: Config<R>,
) -> R {
    side.spec_times(
        average_price(entry, qty).spec_minus(average_price(exit, qty)),
    ).spec_over(mid).spec_times(whole::<R>(10_000)).spec_plus(
        whole::<R>(2).spec_times(c.fee_bps),
    ).spec_plus(buffer)
}

fn blank_stats<R: Real>() -> (r: SymbolStats<R>)
    ensures
        r == no_stats::<R>(),
{
    SymbolStats {
        realized: R::from_i64(0),
        unrealized: R::from_i64(0),
        fees: R::from_i64(0),
        funding: R::from_i64(0),
        turnover: R::from_i64(0),
        slippage: R::from_i64(0),
        fills: 0,
        rejected: 0,
    }
}

fn no_position<R: Real>() -> (r: Position<R>)
    ensures
        r == flat::<R>(),
{
    Position { qty: R::from_i64(0), entry: R::from_i64(0), exit_due_ns: 0 }
}

/// The contents of the books of both assets.
pub open spec fn book_views<R>(books: [Book<R>; 2]) -> Seq<BookView<R>> {
    seq![books[0]@, books[1]@]
}

fn value_at<R: Real>(m: &BTreeMap<i64, R>, k: i64) -> (r: R)
    ensures
        r == at_or_zero(m@, k),
{
    match m.get(&k) {
        Some(v) => *v,
        None => R::from_i64(0),
    }
}

/// The sum of the quantities of fills.
fn filled_qty<R: Real>(fills: &Vec<(i64, R, R)>) -> (r: R)
    ensures
        r == total(fill_sizes(fills@)),
{
    let mut sum: R = empty_sum();
    let ghost sizes = fill_sizes(fills@);
    assert(sizes.take(0) =~= Seq::<R>::empty());
    for i in 0..fills.len()
        invariant
            sizes == fill_sizes(fills@),
            sum == total(sizes.take(i as int)),
    {
        proof {
            assert(sizes.take(i + 1) =~= sizes.take(i as int).push(fills@[i as int].1));
            lemma_total_push(sizes.take(i as int), fills@[i as int].1);
        }
        sum = sum.plus(fills[i].1);
    }
    assert(sizes.take(sizes.len() as int) =~= sizes);
    sum
}

/// The sum of the values of fills.
fn filled_value<R: Real>(fills: &Vec<(i64, R, R)>) -> (r: R)
    ensures
        r == total(fill_values(fills@)),
{
    let mut sum: R = empty_sum();
    let ghost values = fill_values(fills@);
    assert(values.take(0) =~= Seq::<R>::empty());
    for i in 0..fills.len()
        invariant
            values == fill_values(fills@),
            sum == total(values.take(i as int)),
    {
        let value = fills[i].1.times(fills[i].2);
        proof {
            assert(values.take(i + 1) =~= values.take(i as int).push(value));
            lemma_total_push(values.take(i as int), value);
        }
        sum = sum.plus(value);
    }
    assert(values.take(values.len() as int) =~= values);
    sum
}

/// Forgets what was taken at the prices of levels.
fn restore<R: Real>(m: &mut BTreeMap<i64, R>, levels: &Vec<[R; 2]>, tick: R)
    ensures
        final(m)@ == restored(old(m)@, levels@, tick),
{
    assert(levels@.take(0) =~= Seq::<[R; 2]>::empty());
    for i in 0..levels.len()
        invariant
            m@ == restored(old(m)@, levels@.take(i as int), tick),
    {
        proof {
            assert(levels@.take(i + 1).drop_last() =~= levels@.take(i as int));
        }
        let price: R = levels[i][0];
        let key: i64 = price.over(tick).rounded().to_i64();
        m.remove(&key);
    }
    assert(levels@.take(levels@.len() as int) =~= levels@);
}

/// Notes what fills took.
fn deplete<R: Real>(m: &mut BTreeMap<i64, R>, fills: &Vec<(i64, R, R)>)
    ensures
        final(m)@ == depleted(old(m)@, fills@),
{
    assert(fills@.take(0) =~= Seq::<(i64, R, R)>::empty());
    for i in 0..fills.len()
        invariant
            m@ == depleted(old(m)@, fills@.take(i as int)),
    {
        proof {
            assert(fills@.take(i + 1).drop_last() =~= fills@.take(i as int));
        }
        let key: i64 = fills[i].0;
        let taken = value_at(m, key).plus(fills[i].1);
        m.insert(key, taken);
    }
    assert(fills@.take(fills@.len() as int) =~= fills@);
}

/// Walks levels from the best on.
fn walk_levels<R: Real>(
    levels: &Vec<(i64, R)>,
    rising: bool,
    used: &BTreeMap<i64, R>,
    qty: R,
    meta: &Instrument<R>,
) -> (r: Vec<(i64, R, R)>)
    ensures
        r@ == walk(
            if rising {
                levels@
            } else {
                levels@.reverse()
            },
            used@,
            qty,
            *meta,
        ),
{
    let mut left: R = qty;
    let mut fills: Vec<(i64, R, R)> = Vec::new();
    let ghost path = if rising {
        levels@
    } else {
        levels@.reverse()
    };
    let mut i: usize = 0;
    assert(path.skip(0) =~= path);
    while i < levels.len()
        invariant
            i <= levels.len(),
            path == if rising {
                levels@
            } else {
                levels@.reverse()
            },
            fills@ + walk(path.skip(i as int), used@, left, *meta) == walk(
                path,
                used@,
                qty,
                *meta,
            ),
        decreases levels.len() - i,
    {
        let k: usize = if rising {
            i
        } else {
            levels.len() - 1 - i
        };
        let (p, q) = levels[k];
        let ghost before = fills@;
        let ghost rest = path.skip(i as int);
        proof {
            assert(rest.first() == (p, q));
            assert(rest.drop_first() =~= path.skip(i + 1));
        }
        let available = q.minus(value_at(used, p)).larger(R::from_i64(0));
        let take = left.smaller(available).over(meta.step).plus(
            quotient(1, 1_000_000_000),
        ).floored().times(meta.step);
        if positive(take) {
            fills.push((p, take, R::from_i64(p).times(meta.tick)));
            left = left.minus(take);
        }
        proof {
            let fill = if is_positive(take) {
                seq![(p, take, whole::<R>(p).spec_times(meta.tick))]
            } else {
                Seq::empty()
            };
            assert(fills@ =~= before + fill);
            assert(before + (fill + walk(rest.drop_first(), used@, left, *meta)) =~= fills@ + walk(
                path.skip(i + 1),
                used@,
                left,
                *meta,
            ));
        }
        if left.below(meta.step.times(quotient(1, 2))) {
            return fills;
        }
        i = i + 1;
    }
    assert(path.skip(path.len() as int) =~= Seq::<(i64, R)>::empty());
    assert(fills@ + Seq::<(i64, R, R)>::empty() =~= fills@);
    fills
}

fn push_row<R: Real>(out: &mut Vec<Journal<R>>, row: Journal<R>)
    ensures
        journal_views(final(out)@) == journal_views(old(out)@).push(row@),
{
    out.push(row);
    assert(journal_views(out@) =~= journal_views(old(out)@).push(row@));
}

impl<R: Real> Broker<R> {
    /// An account that holds nothing but its equity.
    pub fn new(equity: R) -> (r: Self)
        ensures
            r@ == BrokerView::<R>::opened(equity),
    {
        let r = Broker {
            cash: equity,
            positions: [no_position(), no_position()],
            pending: [None, None],
            fees: R::from_i64(0),
            funding: R::from_i64(0),
            realized: R::from_i64(0),
            turnover: R::from_i64(0),
            slippage: R::from_i64(0),
            rejected: 0,
            equity,
            peak: equity,
            max_drawdown: R::from_i64(0),
            day: 0,
            day_start: equity,
            stopped: false,
            exposure_unpriced: false,
            last_mids: [R::from_i64(0), R::from_i64(0)],
            consumed: [BTreeMap::new(), BTreeMap::new(), BTreeMap::new(), BTreeMap::new()],
            funding_seen: [BTreeSet::new(), BTreeSet::new()],
            position_history: [Vec::new(), Vec::new()],
            per_symbol: [blank_stats(), blank_stats()],
        };
        assert(r@ =~= BrokerView::<R>::opened(equity));
        r
    }

    fn row(e: &Event<R>, c: &Config<R>, i: usize, action: &str, reason: &str) -> (r: Journal<R>)
        requires
            i < c.symbols.len(),
        ensures
            r@ == row_of(e@, *c, i as int, action@, reason@),
    {
        Journal {
            seq: e.seq,
            recv_ns: e.recv_ns,
            symbol: c.symbols[i].clone(),
            action: action.to_owned(),
            qty: R::from_i64(0),
            price: R::from_i64(0),
            fee: R::from_i64(0),
            value: R::from_i64(0),
            reason: reason.to_owned(),
        }
    }

    fn levels(&self, i: usize, side: R, book: &Book<R>, qty: R) -> (r: Vec<(i64, R, R)>)
        requires
            i < 2,
        ensures
            r@ == self@.fills(i as int, side, book@, qty),
    {
        match &book.instrument {
            None => Vec::new(),
            Some(meta) => if positive(side) {
                let asks = climb(&book.asks);
                walk_levels(&asks, true, &self.consumed[2 * i + 1], qty, meta)
            } else {
                let bids = climb(&book.bids);
                walk_levels(&bids, false, &self.consumed[2 * i], qty, meta)
            },
        }
    }

    fn exposure_of(&self, i: usize) -> (r: R)
        requires
            i < 2,
        ensures
            r == exposure(self@.positions[i as int], self@.last_mids[i as int], self@.pending[i as int]),
    {
        let reserved = match &self.pending[i] {
            Some(o) => if o.reduce {
                R::from_i64(0)
            } else {
                o.qty.times(o.decision_mid)
            },
            None => R::from_i64(0),
        };
        self.positions[i].qty.magnitude().times(self.last_mids[i]).plus(reserved)
    }

    fn gross(&self) -> (r: R)
        ensures
            r == self@.gross(),
    {
        sum2(self.exposure_of(0), self.exposure_of(1))
    }

    fn gain_of(&self, i: usize) -> (r: R)
        requires
            i < 2,
        ensures
            r == gain(self@.positions[i as int], self@.last_mids[i as int]),
    {
        self.positions[i].qty.times(self.last_mids[i].minus(self.positions[i].entry))
    }

    /// Brings the price and the gain of one asset up to date. Returns whether a position could not
    /// be priced.
    fn mark_asset(&mut self, i: usize, book: &Book<R>, now: u64, c: &Config<R>) -> (r: bool)
        requires
            i < 2,
            c.stale_ms * MS <= u64::MAX,
        ensures
            r == (!book@.fresh(now, c.stale_ms) && !is_zero(old(self)@.positions[i as int].qty)),
            final(self)@ == (BrokerView {
                last_mids: old(self)@.last_mids.update(
                    i as int,
                    old(self)@.price_of(i as int, book@, now, *c),
                ),
                per_symbol: old(self)@.per_symbol.update(
                    i as int,
                    SymbolStats {
                        unrealized: gain(
                            old(self)@.positions[i as int],
                            old(self)@.price_of(i as int, book@, now, *c),
                        ),
                        ..old(self)@.per_symbol[i as int]
                    },
                ),
                ..old(self)@
            }),
    {
        let mut unpriced = false;
        if book.fresh(now, c.stale_ms) {
            match book.mid() {
                Some(mid) => {
                    self.last_mids[i] = mid;
                },
                None => {},
            }
        } else if !nil(self.positions[i].qty) {
            unpriced = true;
        }
        let unrealized = self.gain_of(i);
        self.per_symbol[i].unrealized = unrealized;
        assert(self@ =~= BrokerView {
            last_mids: old(self)@.last_mids.update(
                i as int,
                old(self)@.price_of(i as int, book@, now, *c),
            ),
            per_symbol: old(self)@.per_symbol.update(
                i as int,
                SymbolStats {
                    unrealized: gain(
                        old(self)@.positions[i as int],
                        old(self)@.price_of(i as int, book@, now, *c),
                    ),
                    ..old(self)@.per_symbol[i as int]
                },
            ),
            ..old(self)@
        });
        unpriced
    }

    fn mark_equity(&mut self, books: &[Book<R>; 2], now: u64, c: &Config<R>)
        requires
            c.stale_ms * MS <= u64::MAX,
        ensures
            final(self)@ == old(self)@.marked(book_views(*books), now, *c),
    {
        let first = self.mark_asset(0, &books[0], now, c);
        let second = self.mark_asset(1, &books[1], now, c);
        self.exposure_unpriced = first || second;
        self.equity = self.cash.plus(sum2(self.gain_of(0), self.gain_of(1)));
        self.peak = self.peak.larger(self.equity);
        self.max_drawdown = self.max_drawdown.larger(self.peak.minus(self.equity));
        assert(self@ =~= old(self)@.marked(book_views(*books), now, *c));
    }

    /// Cancels the entry of one asset where it must go, then closes its position where that is
    /// due.
    fn watch(&mut self, i: usize, e: &Event<R>, c: &Config<R>, valid: bool, out: &mut Vec<Journal<R>>)
        requires
            i < 2,
            c.symbols.len() == 2,
            c.fits(e.recv_ns),
        ensures
            final(self)@ == old(self)@.watched(i as int, e@, *c, valid).0,
            journal_views(final(out)@) == journal_views(old(out)@) + old(self)@.watched(
                i as int,
                e@,
                *c,
                valid,
            ).1,
    {
        let ghost before = self@;
        let ghost rows = journal_views(out@);
        let entry = match &self.pending[i] {
            Some(o) => !o.reduce,
            None => false,
        };
        if (!valid || self.stopped) && entry {
            self.pending[i] = None;
            push_row(out, Self::row(e, c, i, "cancel", "invalid data or daily loss stop"));
        }
        let ghost kept = before.after_cancel(i as int, valid);
        let ghost cancel_rows = if before.cancels(i as int, valid) {
            seq![row_of(e@, *c, i as int, "cancel"@, "invalid data or daily loss stop"@)]
        } else {
            Seq::empty()
        };
        assert(self@ =~= kept);
        assert(journal_views(out@) =~= rows + cancel_rows);
        if !nil(self.positions[i].qty) && self.pending[i].is_none() && (self.stopped || e.recv_ns
            >= self.positions[i].exit_due_ns) {
            let order = Order {
                side: self.positions[i].qty.sign().negated(),
                qty: self.positions[i].qty.magnitude(),
                arrival_ns: e.recv_ns + c.latency_ms * MS,
                reduce: true,
                decision_mid: self.last_mids[i],
            };
            self.pending[i] = Some(order);
            let reason = if self.stopped {
                "daily loss stop"
            } else {
                "holding horizon elapsed"
            };
            push_row(out, Self::row(e, c, i, "exit_submitted", reason));
        }
        assert(self@ =~= before.watched(i as int, e@, *c, valid).0);
        assert(journal_views(out@) =~= rows + before.watched(i as int, e@, *c, valid).1);
    }

    fn enforce_stop(&mut self, e: &Event<R>, c: &Config<R>, valid: bool, out: &mut Vec<Journal<R>>)
        requires
            c.symbols.len() == 2,
            c.fits(e.recv_ns),
        ensures
            final(self)@ == old(self)@.enforced(e@, *c, valid).0,
            journal_views(final(out)@) == journal_views(old(out)@) + old(self)@.enforced(
                e@,
                *c,
                valid,
            ).1,
    {
        if c.daily_loss.within(self.day_start.minus(self.equity)) {
            self.stopped = true;
        }
        assert(self@ =~= old(self)@.stop_checked(*c));
        self.watch(0, e, c, valid, out);
        self.watch(1, e, c, valid, out);
        assert(journal_views(out@) =~= journal_views(old(out)@) + old(self)@.enforced(
            e@,
            *c,
            valid,
        ).1);
    }

    /// Takes in what an event says of liquidity and funding.
    fn inform(
        &mut self,
        e: &Event<R>,
        books: &[Book<R>; 2],
        c: &Config<R>,
        updated: Option<usize>,
        out: &mut Vec<Journal<R>>,
    ) -> (r: Result<(), Error>)
        requires
            c.symbols.len() == 2,
            e@.kind.symbol() is Some ==> place_of(c.names(), e@.kind.symbol()->0) is Some,
        ensures
            final(self)@ == old(self)@.informed(e@, book_views(*books), *c, updated).0,
            match old(self)@.informed(e@, book_views(*books), *c, updated).1 {
                Ok(rows) => r == Ok::<(), Error>(()) && journal_views(final(out)@)
                    == journal_views(old(out)@) + rows,
                Err(fault) => r == Err::<(), Error>(fault),
            },
    {
        let ghost before = self@;
        let ghost old_rows = journal_views(out@);
        if let Kind::Disconnect { .. } = &e.kind {
            self.consumed = [BTreeMap::new(), BTreeMap::new(), BTreeMap::new(), BTreeMap::new()];
        }
        if let Some(s) = e.kind.symbol() {
            let i: usize = find_text(c.symbols.as_slice(), s).unwrap();
            match &e.kind {
                Kind::Snapshot { .. } => {
                    self.consumed[2 * i] = BTreeMap::new();
                    self.consumed[2 * i + 1] = BTreeMap::new();
                },
                Kind::Depth { bids, asks, .. } => {
                    let applied = match updated {
                        Some(k) => k == i,
                        None => false,
                    };
                    if applied {
                        if let Some(meta) = &books[i].instrument {
                            restore(&mut self.consumed[2 * i], bids, meta.tick);
                            restore(&mut self.consumed[2 * i + 1], asks, meta.tick);
                        }
                    }
                },
                Kind::Funding { funding_ns, rate, mark, .. } => {
                    if !(rate.is_finite() && mark.is_finite() && positive(*mark)) {
                        return Err(Error::InvalidFunding);
                    }
                    return self.settle(i, *funding_ns, *rate, *mark, e, c, out);
                },
                _ => {},
            }
        }
        assert(self@.consumed =~= before.consumed_after(e@, book_views(*books), *c, updated));
        assert(self@ =~= before.informed(e@, book_views(*books), *c, updated).0);
        assert(journal_views(out@) =~= old_rows + Seq::<JournalView<R>>::empty());
        Ok(())
    }

    /// What was held of an asset at a time.
    fn position_at(&self, i: usize, t: u64) -> (r: R)
        requires
            i < 2,
        ensures
            r == self@.held_at(i as int, t),
    {
        let history = &self.position_history[i];
        let mut n: usize = history.len();
        assert(history@.take(n as int) =~= history@);
        while n > 0
            invariant
                n <= history.len(),
                mid_at(history@, t) == mid_at(history@.take(n as int), t),
                i < 2,
                history@ == self@.position_history[i as int],
            decreases n,
        {
            assert(history@.take(n as int).drop_last() =~= history@.take(n - 1));
            if history[n - 1].0 <= t {
                return history[n - 1].1;
            }
            n = n - 1;
        }
        R::from_i64(0)
    }

    /// Pays a funding settlement, once.
    fn settle(
        &mut self,
        i: usize,
        funding_ns: u64,
        rate: R,
        mark: R,
        e: &Event<R>,
        c: &Config<R>,
        out: &mut Vec<Journal<R>>,
    ) -> (r: Result<(), Error>)
        requires
            i < 2,
            c.symbols.len() == 2,
        ensures
            r == Ok::<(), Error>(()),
            final(self)@ == old(self)@.funded(i as int, funding_ns, rate, mark),
            journal_views(final(out)@) == journal_views(old(out)@) + (if old(
                self,
            )@.funding_seen[i as int].contains(funding_ns) {
                Seq::empty()
            } else {
                seq![
                    JournalView {
                        value: old(self)@.payment(i as int, funding_ns, rate, mark),
                        ..row_of(e@, *c, i as int, "funding"@, "settled historical funding"@)
                    },
                ]
            }),
    {
        let ghost before = self@;
        let ghost old_rows = journal_views(out@);
        if self.funding_seen[i].contains(&funding_ns) {
            assert(journal_views(out@) =~= old_rows + Seq::<JournalView<R>>::empty());
            return Ok(());
        }
        let payment = self.position_at(i, funding_ns).negated().times(mark).times(rate);
        self.funding_seen[i].insert(funding_ns);
        self.cash = self.cash.plus(payment);
        self.funding = self.funding.plus(payment);
        self.per_symbol[i].funding = self.per_symbol[i].funding.plus(payment);
        let mut row = Self::row(e, c, i, "funding", "settled historical funding");
        row.value = payment;
        push_row(out, row);
        assert(self@ =~= before.funded(i as int, funding_ns, rate, mark));
        assert(journal_views(out@) =~= old_rows + seq![
            JournalView {
                value: before.payment(i as int, funding_ns, rate, mark),
                ..row_of(e@, *c, i as int, "funding"@, "settled historical funding"@)
            },
        ]);
        Ok(())
    }

    /// Books a fill at an average price.
    fn book_fill(
        &mut self,
        i: usize,
        o: &Order<R>,
        fills: &Vec<(i64, R, R)>,
        qty: R,
        price: R,
        meta: &Instrument<R>,
        e: &Event<R>,
        c: &Config<R>,
    ) -> (fee: R)
        requires
            i < 2,
            c.fits(e.recv_ns),
        ensures
            fee == fee_of(qty, price, *c),
            final(self)@ == old(self)@.filled(
                i as int,
                *o,
                fills@,
                qty,
                price,
                *meta,
                e@,
                *c,
            ),
    {
        let ghost before = self@;
        if positive(o.side) {
            deplete(&mut self.consumed[2 * i + 1], fills);
        } else {
            deplete(&mut self.consumed[2 * i], fills);
        }
        let value = qty.times(price);
        let fee = value.times(c.fee_bps).over(R::from_i64(10_000));
        let slip = o.side.times(price.minus(o.decision_mid)).times(qty);
        self.cash = self.cash.minus(fee);
        self.fees = self.fees.plus(fee);
        self.turnover = self.turnover.plus(value);
        self.slippage = self.slippage.plus(slip);
        self.per_symbol[i].fees = self.per_symbol[i].fees.plus(fee);
        self.per_symbol[i].turnover = self.per_symbol[i].turnover.plus(value);
        self.per_symbol[i].slippage = self.per_symbol[i].slippage.plus(slip);
        self.per_symbol[i].fills = self.per_symbol[i].fills.wrapping_add(1);
        if o.reduce {
            let pnl = qty.times(self.positions[i].qty.sign()).times(
                price.minus(self.positions[i].entry),
            );
            self.cash = self.cash.plus(pnl);
            self.realized = self.realized.plus(pnl);
            self.per_symbol[i].realized = self.per_symbol[i].realized.plus(pnl);
            self.positions[i].qty = self.positions[i].qty.plus(o.side.times(qty));
            if self.positions[i].qty.magnitude().below(meta.step.times(quotient(1, 2))) {
                self.positions[i] = no_position();
            }
        } else {
            self.positions[i] = Position {
                qty: o.side.times(qty),
                entry: price,
                exit_due_ns: e.recv_ns + c.horizon_ms * MS,
            };
        }
        let held: R = self.positions[i].qty;
        self.position_history[i].push((e.utc_ns, held));
        proof {
            let after = before.filled(i as int, *o, fills@, qty, price, *meta, e@, *c);
            assert(self@.consumed =~= after.consumed);
            assert(self@.positions =~= after.positions);
            assert(self@.position_history =~= after.position_history);
            assert(self@.per_symbol =~= after.per_symbol);
            assert(self@ =~= after);
        }
        fee
    }

    /// Lets the pending order of an asset meet the book. Returns whether it was refused.
    fn trade(
        &mut self,
        i: usize,
        e: &Event<R>,
        books: &[Book<R>; 2],
        c: &Config<R>,
        out: &mut Vec<Journal<R>>,
    ) -> (r: bool)
        requires
            i < 2,
            c.symbols.len() == 2,
            c.fits(e.recv_ns),
            old(self)@.pending[i as int] is Some,
            books[i as int]@.instrument is Some,
        ensures
            final(self)@ == old(self)@.traded(i as int, e@, book_views(*books), *c).0,
            journal_views(final(out)@) == journal_views(old(out)@) + old(self)@.traded(
                i as int,
                e@,
                book_views(*books),
                *c,
            ).1,
            r == old(self)@.traded(i as int, e@, book_views(*books), *c).2,
    {
        let ghost before = self@;
        let ghost old_rows = journal_views(out@);
        let ghost views = book_views(*books);
        let o: Order<R> = self.pending[i].unwrap();
        let meta: Instrument<R> = books[i].instrument.unwrap();
        let fills = self.levels(i, o.side, &books[i], o.qty);
        let qty = filled_qty(&fills);
        let price = filled_value(&fills).over(qty);
        let some = positive(qty);
        if some {
            let value = qty.times(price);
            // Recheck gross risk at execution; an entry cannot consume the exit reserve.
            let projected = self.gross().minus(o.qty.times(o.decision_mid)).plus(value);
            if !o.reduce && (qty.below(meta.min_qty) || value.below(meta.min_notional)
                || c.gross_cap.below(projected)) {
                self.pending[i] = None;
                self.rejected = self.rejected.wrapping_add(1);
                self.per_symbol[i].rejected = self.per_symbol[i].rejected.wrapping_add(1);
                push_row(
                    out,
                    Self::row(e, c, i, "reject", "fill violates instrument or gross limit"),
                );
                assert(self@ =~= before.refused(i as int));
                assert(journal_views(out@) =~= old_rows + before.traded(
                    i as int,
                    e@,
                    views,
                    *c,
                ).1);
                return true;
            }
            let fee = self.book_fill(i, &o, &fills, qty, price, &meta, e, c);
            let reason = if o.reduce {
                "exit"
            } else {
                "entry"
            };
            let mut row = Self::row(e, c, i, "fill", reason);
            row.qty = o.side.times(qty);
            row.price = price;
            row.fee = fee;
            push_row(out, row);
        }
        let left = o.qty.minus(qty);
        if o.reduce && meta.step.times(quotient(1, 2)).below(left) {
            self.pending[i] = Some(
                Order { qty: left, arrival_ns: e.recv_ns + c.latency_ms * MS, ..o },
            );
        } else {
            if !o.reduce && quotient::<R>(1, 1_000_000_000_000).below(left) {
                push_row(out, Self::row(e, c, i, "cancel", "unfilled IOC entry remainder"));
            }
            self.pending[i] = None;
        }
        assert(self@ =~= before.traded(i as int, e@, views, *c).0);
        assert(journal_views(out@) =~= old_rows + before.traded(i as int, e@, views, *c).1);
        false
    }

    /// Takes in an event that the books have already seen. `updated` is the asset whose book an
    /// update has moved on, and `valid` says whether both feeds and both books are healthy.
    pub fn on_event(
        &mut self,
        e: &Event<R>,
        books: &[Book<R>; 2],
        c: &Config<R>,
        updated: Option<usize>,
        valid: bool,
    ) -> (r: Result<Vec<Journal<R>>, Error>)
        requires
            c.symbols.len() == 2,
            c.fits(e.recv_ns),
            updated is Some ==> updated->0 < 2,
            e@.kind.symbol() is Some ==> place_of(c.names(), e@.kind.symbol()->0) is Some,
        ensures
            final(self)@ == old(self)@.after(e@, book_views(*books), *c, updated, valid).0,
            match old(self)@.after(e@, book_views(*books), *c, updated, valid).1 {
                Ok(rows) => r is Ok && journal_views(r->Ok_0@) == rows,
                Err(fault) => r is Err && r->Err_0 == fault,
            },
    {
        reveal(BrokerView::after);
        let ghost before = self@;
        let ghost views = book_views(*books);
        let mut out: Vec<Journal<R>> = Vec::new();
        assert(journal_views(out@) =~= Seq::<JournalView<R>>::empty());
        match self.inform(e, books, c, updated, &mut out) {
            Err(fault) => return Err(fault),
            Ok(()) => {},
        }
        let ghost news = before.informed(e@, views, *c, updated).1->Ok_0;
        assert(journal_views(out@) =~= news);
        let ghost told = self@;
        self.mark_equity(books, e.recv_ns, c);
        let day: u64 = e.utc_ns / DAY;
        if day > self.day {
            self.day = day;
            self.day_start = self.equity;
            self.stopped = false;
        }
        assert(self@ =~= told.marked(views, e.recv_ns, *c).on_day(day));
        self.enforce_stop(e, c, valid, &mut out);
        let ghost ready = self@;
        let ghost rules = told.prepared(e@, views, *c, valid).1;
        assert(ready == told.prepared(e@, views, *c, valid).0);
        assert(journal_views(out@) =~= news + rules);
        if let Some(i) = updated {
            let waiting = match &self.pending[i] {
                Some(o) => e.recv_ns >= o.arrival_ns && books[i].fresh(e.recv_ns, c.stale_ms) && (
                o.reduce || valid),
                None => false,
            };
            assert(waiting == ready.due(i as int, e@, views, *c, valid));
            if waiting {
                if self.trade(i, e, books, c, &mut out) {
                    return Ok(out);
                }
            }
        }
        self.mark_equity(books, e.recv_ns, c);
        self.enforce_stop(e, c, valid, &mut out);
        assert(journal_views(out@) =~= before.after(e@, views, *c, updated, valid).1->Ok_0);
        Ok(out)
    }

    /// Decides on a prediction for an asset, in basis points. The book must have a top unless the
    /// account is not free to open a position.
    pub fn decide(
        &mut self,
        i: usize,
        prediction: R,
        buffer: R,
        e: &Event<R>,
        books: &[Book<R>; 2],
        c: &Config<R>,
    ) -> (r: Vec<Journal<R>>)
        requires
            i < 2,
            c.symbols.len() == 2,
            c.fits(e.recv_ns),
            old(self)@.is_free(i as int) ==> books[i as int]@.top() is Some,
        ensures
            final(self)@ == old(self)@.decided(
                i as int,
                prediction,
                buffer,
                e@,
                book_views(*books),
                *c,
            ).0,
            journal_views(r@) == old(self)@.decided(
                i as int,
                prediction,
                buffer,
                e@,
                book_views(*books),
                *c,
            ).1,
    {
        let ghost before = self@;
        let ghost views = book_views(*books);
        let ghost result = before.decided(i as int, prediction, buffer, e@, views, *c);
        let mut signal = Self::row(e, c, i, "prediction", "");
        signal.value = prediction;
        let mut out: Vec<Journal<R>> = Vec::new();
        push_row(&mut out, signal);
        assert(journal_views(out@) =~= seq![signal@]);
        if self.stopped || !nil(self.positions[i].qty) || self.pending[i].is_some() {
            return out;
        }
        let mid: R = books[i].mid().unwrap();
        let meta: Instrument<R> = books[i].instrument.unwrap();
        let qty = c.entry_notional.over(mid).over(meta.step).floored().times(meta.step);
        let side = prediction.sign();
        if nil(side) {
            return out;
        }
        let entry = self.levels(i, side, &books[i], qty);
        let exit = self.levels(i, side.negated(), &books[i], qty);
        let slack: R = quotient(1, 1_000_000_000_000);
        if qty.below(meta.min_qty) || qty.times(mid).below(meta.min_notional) || !qty.within(
            filled_qty(&entry).plus(slack),
        ) || !qty.within(filled_qty(&exit).plus(slack)) {
            return out;
        }
        let spread = filled_value(&entry).over(qty).minus(filled_value(&exit).over(qty));
        let cost = side.times(spread).over(mid).times(R::from_i64(10_000)).plus(
            R::from_i64(2).times(c.fee_bps),
        ).plus(buffer);
        if prediction.magnitude().within(cost) {
            return out;
        }
        if c.gross_cap.below(self.gross().plus(qty.times(mid))) {
            self.rejected = self.rejected.wrapping_add(1);
            self.per_symbol[i].rejected = self.per_symbol[i].rejected.wrapping_add(1);
            push_row(
                &mut out,
                Self::row(e, c, i, "reject", "gross exposure including pending entries"),
            );
            assert(self@ =~= before.counted_rejection(i as int));
            assert(journal_views(out@) =~= result.1);
            return out;
        }
        self.pending[i] = Some(
            Order {
                side,
                qty,
                arrival_ns: e.recv_ns + c.latency_ms * MS,
                reduce: false,
                decision_mid: mid,
            },
        );
        let mut row = Self::row(e, c, i, "entry_submitted", "prediction exceeds round-trip costs");
        row.qty = side.times(qty);
        row.value = cost;
        push_row(&mut out, row);
        assert(self@ =~= result.0);
        assert(journal_views(out@) =~= result.1);
        out
    }
}

} // verus!
