//! What of the displayed book an order takes, in whole units.
use crate::book::{BookView, Instrument};
use crate::fixed::{quotient_of, Fixed, SCALE};
use crate::ladder::{downward, lemma_listing_exists, ordered_keys, upward};
use crate::meaning::arithmetic::{cuts, lemma_cut, lemma_cuts_agree, lemma_product, lemma_quotient};
use crate::number::{ratio, total, Real};
use crate::paper::{at_or_zero, fill_sizes, fill_values, take_of, walk, BrokerView};
use crate::takes::{
    are_positive, filled_at, filled_units, first_fill, lemma_constants, lemma_fills_join,
    lemma_levels_differ, lemma_one_fill, lemma_take, lemma_total_is_exact, lemma_walk_is_bounded,
};
use vstd::prelude::*;

verus! {

/// What a level has left, in units.
pub open spec fn left_of(shown: Fixed, used: Fixed) -> int {
    if shown.units > used.units {
        shown.units - used.units
    } else {
        0
    }
}

/// Whether levels go up, or down, in price.
spec fn are_sorted(levels: Seq<(i64, Fixed)>, up: bool) -> bool {
    forall|a: int, b: int|
        0 <= a < b < levels.len() ==> if up {
            (#[trigger] levels[a]).0 < (#[trigger] levels[b]).0
        } else {
            levels[a].0 > levels[b].0
        }
}

/// An order takes of a level all whole steps that it and the level have left.
proof fn lemma_take_is_all(left: Fixed, q: Fixed, used: Fixed, step: Fixed)
    requires
        0 < step.units <= i64::MAX / 2,
        0 <= left.units <= i64::MAX / 2,
        0 <= q.units,
        0 <= used.units,
        left.units * SCALE <= (i64::MAX - 1) * step.units,
    ensures
        ({
            let free = left_of(q, used);
            let m = if left.units < free {
                left.units as int
            } else {
                free
            };
            let take = take_of(left, q, used, step).units as int;
            &&& take >= 0
            &&& take % step.units as int == 0
            &&& (m - take) * SCALE < (SCALE - 1) * step.units
            &&& take > 0 ==> m * SCALE >= (SCALE - 1) * step.units
        }),
{
    lemma_constants(step);
    let s = step.units as int;
    let free = q.spec_minus(used).spec_larger(Fixed::spec_from_i64(0));
    assert(free.units == left_of(q, used));
    let least = left.spec_smaller(free);
    let m = least.units as int;
    assert(0 <= m * SCALE <= (i64::MAX - 1) * s) by (nonlinear_arith)
        requires
            0 <= m <= left.units,
            left.units * SCALE <= (i64::MAX - 1) * s,
            SCALE == 1_000_000_000,
    ;
    assert((i64::MAX - 1) * s <= i64::MAX * s) by (nonlinear_arith)
        requires
            s > 0,
    ;
    lemma_quotient(least, step);
    let x = least.spec_over(step);
    let n = x.units as int;
    assert(n * s <= m * SCALE < n * s + s) by (nonlinear_arith)
        requires
            cuts(n, m * SCALE, s),
            m * SCALE >= 0,
    ;
    assert(n <= i64::MAX - 1) by (nonlinear_arith)
        requires
            n * s <= (i64::MAX - 1) * s,
            s > 0,
    ;
    let y = x.spec_plus(ratio::<Fixed>(1, 1_000_000_000));
    assert(y.units == n + 1);
    let k = y.units as int / SCALE as int;
    assert(k >= 0 && k * SCALE <= n + 1 < k * SCALE + SCALE) by (nonlinear_arith)
        requires
            k == (n + 1) / SCALE as int,
            n >= 0,
            SCALE == 1_000_000_000,
    ;
    let whole = y.spec_floored();
    assert(whole.units == k * SCALE);
    assert(whole.units * s == k * s * SCALE && k * s >= 0) by (nonlinear_arith)
        requires
            whole.units == k * SCALE,
            k >= 0,
            s > 0,
    ;
    assert(k * s <= m + s) by (nonlinear_arith)
        requires
            k * SCALE <= n + 1,
            n * s <= m * SCALE,
            s > 0,
            SCALE == 1_000_000_000,
    ;
    lemma_take(left, q, used, step);
    lemma_cut(whole.units * s, SCALE as int);
    assert(cuts(k * s, k * s * SCALE, SCALE as int));
    lemma_cuts_agree(
        quotient_of(whole.units * s, SCALE as int),
        k * s,
        k * s * SCALE,
        SCALE as int,
    );
    let take = take_of(left, q, used, step).units as int;
    assert(take == k * s);
    assert((k * s) % s == 0) by (nonlinear_arith)
        requires
            s > 0,
    ;
    assert((m - take) * SCALE < (SCALE - 1) * s) by (nonlinear_arith)
        requires
            take == k * s,
            m * SCALE < n * s + s,
            n + 1 < k * SCALE + SCALE,
            s > 0,
            SCALE == 1_000_000_000,
    {
        assert((n + 2) * s <= (k * SCALE + SCALE) * s);
    }
    if take > 0 {
        assert(k >= 1) by (nonlinear_arith)
            requires
                take == k * s,
                take > 0,
                s > 0,
                k >= 0,
        ;
        assert(m * SCALE >= (SCALE - 1) * s) by (nonlinear_arith)
            requires
                k >= 1,
                k * SCALE <= n + 1,
                n * s <= m * SCALE,
                s > 0,
                SCALE == 1_000_000_000,
        ;
    }
}

/// Whether a book side and what was taken of it are amounts, and an order is small enough to be counted
/// in its steps.
pub open spec fn is_countable(
    side: Map<i64, Fixed>,
    used: Map<i64, Fixed>,
    left: Fixed,
    step: Fixed,
) -> bool {
    &&& side.dom().finite()
    &&& 0 < step.units <= i64::MAX / 2
    &&& 0 <= left.units <= i64::MAX / 2
    &&& left.units * SCALE <= (i64::MAX - 1) * step.units
    &&& forall|k: i64| #[trigger]
        side.contains_key(k) ==> side[k].units >= 0 && at_or_zero(used, k).units >= 0
}

/// Whether levels are of amounts, and what was taken of them too.
spec fn are_countable(levels: Seq<(i64, Fixed)>, used: Map<i64, Fixed>) -> bool {
    forall|j: int|
        0 <= j < levels.len() ==> (#[trigger] levels[j]).1.units >= 0 && at_or_zero(
            used,
            levels[j].0,
        ).units >= 0
}

/// Whether a fill is at a level.
spec fn is_at(f: (i64, Fixed, Fixed), levels: Seq<(i64, Fixed)>, meta: Instrument<Fixed>, p: int) -> bool {
    &&& 0 <= p < levels.len()
    &&& f.0 == levels[p].0
    &&& f.1.units > 0
    &&& f.1.units % meta.step.units == 0
    &&& f.2 == Fixed::spec_from_i64(f.0).spec_times(meta.tick)
}

/// Whether a fill is at one of a list of levels.
spec fn is_among(f: (i64, Fixed, Fixed), levels: Seq<(i64, Fixed)>, meta: Instrument<Fixed>) -> bool {
    exists|p: int| is_at(f, levels, meta, p)
}

/// Where each fill of a walk stands.
proof fn lemma_walk_places(
    levels: Seq<(i64, Fixed)>,
    used: Map<i64, Fixed>,
    left: Fixed,
    meta: Instrument<Fixed>,
    up: bool,
)
    requires
        0 < meta.step.units <= i64::MAX / 2,
        0 <= left.units <= i64::MAX / 2,
        left.units * SCALE <= (i64::MAX - 1) * meta.step.units,
        are_countable(levels, used),
        are_sorted(levels, up),
    ensures
        ({
            let fills = walk(levels, used, left, meta);
            &&& forall|j: int|
                0 <= j < fills.len() ==> is_among(#[trigger] fills[j], levels, meta)
            &&& forall|a: int, b: int|
                0 <= a < b < fills.len() ==> if up {
                    (#[trigger] fills[a]).0 < (#[trigger] fills[b]).0
                } else {
                    fills[a].0 > fills[b].0
                }
            &&& fills.len() > 0 ==> left.units * SCALE >= (SCALE - 1) * meta.step.units
        }),
    decreases levels.len(),
{
    if levels.len() > 0 {
        let (p, q) = levels[0];
        assert(levels.first() == levels[0]);
        let taken = at_or_zero(used, p);
        let take = take_of(left, q, taken, meta.step);
        assert(levels[0].1.units >= 0);
        lemma_take_is_all(left, q, taken, meta.step);
        lemma_constants(meta.step);
        let fill = first_fill(levels, used, left, meta);
        let rest = if take.units > 0 {
            left.spec_minus(take)
        } else {
            left
        };
        let others = levels.drop_first();
        let fills = walk(levels, used, left, meta);
        if take.units > 0 {
            lemma_take(left, q, taken, meta.step);
            assert(rest.units == left.units - take.units);
            assert(is_at(fill[0], levels, meta, 0));
        }
        if rest.units >= meta.step.units / 2 {
            assert forall|j: int| 0 <= j < others.len() implies (#[trigger] others[j]).1.units >= 0
                && at_or_zero(used, others[j].0).units >= 0 by {
                assert(others[j] == levels[j + 1]);
            }
            assert forall|a: int, b: int| 0 <= a < b < others.len() implies if up {
                (#[trigger] others[a]).0 < (#[trigger] others[b]).0
            } else {
                others[a].0 > others[b].0
            } by {
                assert(others[a] == levels[a + 1] && others[b] == levels[b + 1]);
            }
            assert(rest.units * SCALE <= (i64::MAX - 1) * meta.step.units) by (nonlinear_arith)
                requires
                    rest.units <= left.units,
                    left.units * SCALE <= (i64::MAX - 1) * meta.step.units,
                    SCALE == 1_000_000_000,
            ;
            lemma_walk_places(others, used, rest, meta, up);
            let tail = walk(others, used, rest, meta);
            assert(fills == fill + tail);
            assert forall|j: int| 0 <= j < fills.len() implies is_among(
                #[trigger] fills[j],
                levels,
                meta,
            ) by {
                if j >= fill.len() {
                    assert(fills[j] == tail[j - fill.len()]);
                    let f = tail[j - fill.len()];
                    assert(is_among(tail[j - fill.len()], others, meta));
                    let n = choose|n: int| is_at(f, others, meta, n);
                    assert(others[n] == levels[n + 1]);
                    assert(is_at(fills[j], levels, meta, n + 1));
                }
            }
            assert forall|a: int, b: int| 0 <= a < b < fills.len() implies if up {
                (#[trigger] fills[a]).0 < (#[trigger] fills[b]).0
            } else {
                fills[a].0 > fills[b].0
            } by {
                assert(fills[b] == tail[b - fill.len()]);
                if a >= fill.len() {
                    assert(fills[a] == tail[a - fill.len()]);
                } else {
                    let f = tail[b - fill.len()];
                    assert(is_among(tail[b - fill.len()], others, meta));
                    let n = choose|n: int| is_at(f, others, meta, n);
                    assert(others[n] == levels[n + 1]);
                    assert(levels[0].0 == fills[a].0);
                }
            }
            if tail.len() > 0 && take.units <= 0 {
                assert(rest == left);
            }
            if tail.len() > 0 {
                assert(left.units * SCALE >= (SCALE - 1) * meta.step.units) by (nonlinear_arith)
                    requires
                        rest.units <= left.units,
                        rest.units * SCALE >= (SCALE - 1) * meta.step.units,
                        SCALE == 1_000_000_000,
                ;
            }
        } else {
            assert(fills == fill);
        }
        if take.units > 0 {
            let free = left_of(q, taken);
            let m = if left.units < free {
                left.units as int
            } else {
                free
            };
            assert(left.units * SCALE >= (SCALE - 1) * meta.step.units) by (nonlinear_arith)
                requires
                    m <= left.units,
                    m * SCALE >= (SCALE - 1) * meta.step.units,
                    SCALE == 1_000_000_000,
            ;
        }
    }
}

/// Whether a walk leaves less than a step of a level, or ended there for want of a step of its own.
spec fn is_spent(
    levels: Seq<(i64, Fixed)>,
    used: Map<i64, Fixed>,
    left: Fixed,
    meta: Instrument<Fixed>,
    p: int,
) -> bool {
    let fills = walk(levels, used, left, meta);
    let (k, q) = levels[p];
    ||| left_of(q, at_or_zero(used, k)) - filled_at(fills, k) < meta.step.units
    ||| left.units - filled_units(fills) < meta.step.units && forall|j: int, n: int|
        0 <= j < fills.len() && p < n < levels.len() ==> (#[trigger] fills[j]).0 != (
        #[trigger] levels[n]).0
}

proof fn lemma_walk_spends(
    levels: Seq<(i64, Fixed)>,
    used: Map<i64, Fixed>,
    left: Fixed,
    meta: Instrument<Fixed>,
    up: bool,
    p: int,
)
    requires
        0 < meta.step.units <= i64::MAX / 2,
        0 <= left.units <= i64::MAX / 2,
        left.units * SCALE <= (i64::MAX - 1) * meta.step.units,
        are_countable(levels, used),
        are_sorted(levels, up),
        0 <= p < levels.len(),
    ensures
        is_spent(levels, used, left, meta, p),
    decreases levels.len(),
{
    let (k, q) = levels[0];
    assert(levels.first() == levels[0]);
    let taken = at_or_zero(used, k);
    let take = take_of(left, q, taken, meta.step);
    let s = meta.step.units as int;
    assert(levels[0].1.units >= 0);
    lemma_take_is_all(left, q, taken, meta.step);
    lemma_constants(meta.step);
    let fill = first_fill(levels, used, left, meta);
    let rest = if take.units > 0 {
        left.spec_minus(take)
    } else {
        left
    };
    let others = levels.drop_first();
    let fills = walk(levels, used, left, meta);
    let price = Fixed::spec_from_i64(k).spec_times(meta.tick);
    if take.units > 0 {
        lemma_take(left, q, taken, meta.step);
        assert(rest.units == left.units - take.units);
    }
    lemma_one_fill((k, take, price), levels[p].0);
    lemma_one_fill((k, take, price), k);
    let free = left_of(q, taken);
    let m = if left.units < free {
        left.units as int
    } else {
        free
    };
    assert(m - take.units < s) by (nonlinear_arith)
        requires
            (m - take.units) * SCALE < (SCALE - 1) * s,
            s > 0,
            SCALE == 1_000_000_000,
    ;
    if rest.units < meta.step.units / 2 {
        assert(fills == fill);
        assert(filled_units(fills) == take.units);
        if p == 0 && fill.len() > 0 {
            assert forall|j: int, n: int|
                0 <= j < fills.len() && 0 < n < levels.len() implies (#[trigger] fills[j]).0 != (
            #[trigger] levels[n]).0 by {
                assert(levels[0].0 != levels[n].0);
            }
        }
        assert forall|j: int, n: int|
            0 <= j < fills.len() && p < n < levels.len() implies (#[trigger] fills[j]).0 != (
        #[trigger] levels[n]).0 by {
            assert(levels[0].0 != levels[n].0);
        }
    } else {
        assert forall|j: int| 0 <= j < others.len() implies (#[trigger] others[j]).1.units >= 0
            && at_or_zero(used, others[j].0).units >= 0 by {
            assert(others[j] == levels[j + 1]);
        }
        assert forall|a: int, b: int| 0 <= a < b < others.len() implies if up {
            (#[trigger] others[a]).0 < (#[trigger] others[b]).0
        } else {
            others[a].0 > others[b].0
        } by {
            assert(others[a] == levels[a + 1] && others[b] == levels[b + 1]);
        }
        assert(rest.units * SCALE <= (i64::MAX - 1) * s) by (nonlinear_arith)
            requires
                rest.units <= left.units,
                left.units * SCALE <= (i64::MAX - 1) * s,
                SCALE == 1_000_000_000,
        ;
        let tail = walk(others, used, rest, meta);
        assert(fills == fill + tail);
        lemma_walk_places(others, used, rest, meta, up);
        lemma_fills_join(fill, tail, levels[p].0);
        lemma_fills_join(fill, tail, k);
        assert(filled_units(fills) == take.units + filled_units(tail));
        if p == 0 {
            lemma_elsewhere(tail, others, meta, k);
            if left.units < free {
                assert(rest.units == left.units - take.units);
                assert(tail.len() == 0) by (nonlinear_arith)
                    requires
                        (left.units - take.units) * SCALE < (SCALE - 1) * s,
                        rest.units == left.units - take.units,
                        tail.len() > 0 ==> rest.units * SCALE >= (SCALE - 1) * s,
                ;
                assert(filled_units(tail) == 0);
                assert forall|j: int, n: int|
                    0 <= j < fills.len() && 0 < n < levels.len() implies (#[trigger] fills[j]).0
                    != (#[trigger] levels[n]).0 by {
                    assert(levels[0].0 != levels[n].0);
                }
            } else {
                assert(filled_at(fills, k) == take.units);
            }
        } else {
            lemma_walk_spends(others, used, rest, meta, up, p - 1);
            assert(others[p - 1] == levels[p]);
            assert(levels[0].0 != levels[p].0);
            assert(filled_at(fill, levels[p].0) == 0);
            if left_of(levels[p].1, at_or_zero(used, levels[p].0)) - filled_at(
                fills,
                levels[p].0,
            ) >= s {
                assert forall|j: int, n: int|
                    0 <= j < fills.len() && p < n < levels.len() implies (#[trigger] fills[j]).0
                    != (#[trigger] levels[n]).0 by {
                    if j < fill.len() {
                        assert(levels[0].0 != levels[n].0);
                    } else {
                        assert(fills[j] == tail[j - fill.len()]);
                        assert(others[n - 1] == levels[n]);
                    }
                }
            }
        }
    }
}

/// Fills at other levels take nothing of one.
proof fn lemma_elsewhere(
    fills: Seq<(i64, Fixed, Fixed)>,
    levels: Seq<(i64, Fixed)>,
    meta: Instrument<Fixed>,
    k: i64,
)
    requires
        forall|j: int|
            0 <= j < fills.len() ==> is_among(#[trigger] fills[j], levels, meta),
        forall|p: int| 0 <= p < levels.len() ==> (#[trigger] levels[p]).0 != k,
    ensures
        filled_at(fills, k) == 0,
    decreases fills.len(),
{
    if fills.len() > 0 {
        let fewer = fills.drop_last();
        assert forall|j: int| 0 <= j < fewer.len() implies is_among(
            #[trigger] fewer[j],
            levels,
            meta,
        ) by {
            assert(fewer[j] == fills[j]);
        }
        lemma_elsewhere(fewer, levels, meta, k);
        let n = fills.len() - 1;
        let f = fills[n];
        assert(is_among(fills[n], levels, meta));
        let p = choose|p: int| is_at(f, levels, meta, p);
        assert(levels[p].0 != k);
    }
}

/// The side of the book that an order takes from: a buy from the asks, a sell from the bids.
pub open spec fn taken_side(book: BookView<Fixed>, side: Fixed) -> Map<i64, Fixed> {
    if side.units > 0 {
        book.asks
    } else {
        book.bids
    }
}

/// What was taken of that side of the book of an asset.
pub open spec fn taken_before(broker: BrokerView<Fixed>, i: int, side: Fixed) -> Map<i64, Fixed> {
    if side.units > 0 {
        broker.consumed[2 * i + 1]
    } else {
        broker.consumed[2 * i]
    }
}

proof fn lemma_ordered_levels(side: Map<i64, Fixed>, used: Map<i64, Fixed>)
    requires
        side.dom().finite(),
        forall|k: i64| #[trigger]
            side.contains_key(k) ==> side[k].units >= 0 && at_or_zero(used, k).units >= 0,
    ensures
        are_sorted(upward(side), true),
        are_sorted(downward(side), false),
        are_countable(upward(side), used),
        are_countable(downward(side), used),
        forall|k: i64| #[trigger]
            side.contains_key(k) ==> exists|p: int|
                0 <= p < upward(side).len() && (#[trigger] upward(side)[p]).0 == k,
        forall|k: i64| #[trigger]
            side.contains_key(k) ==> exists|p: int|
                0 <= p < downward(side).len() && (#[trigger] downward(side)[p]).0 == k,
{
    lemma_listing_exists(side);
    lemma_levels_differ(side);
    let keys = ordered_keys(side);
    assert forall|a: int, b: int| 0 <= a < b < upward(side).len() implies (#[trigger] upward(
        side,
    )[a]).0 < (#[trigger] upward(side)[b]).0 by {
        assert(keys[a] < keys[b]);
    }
    assert forall|a: int, b: int| 0 <= a < b < downward(side).len() implies (#[trigger] downward(
        side,
    )[a]).0 > (#[trigger] downward(side)[b]).0 by {
        assert(keys[keys.len() - 1 - b] < keys[keys.len() - 1 - a]);
    }
    assert forall|k: i64| #[trigger] side.contains_key(k) implies exists|p: int|
        0 <= p < upward(side).len() && (#[trigger] upward(side)[p]).0 == k by {
        let p = keys.index_of(k);
        assert(keys[p] == k);
        assert(upward(side)[p].0 == k);
    }
    assert forall|k: i64| #[trigger] side.contains_key(k) implies exists|p: int|
        0 <= p < downward(side).len() && (#[trigger] downward(side)[p]).0 == k by {
        let p = keys.index_of(k);
        assert(keys[p] == k);
        assert(downward(side)[keys.len() - 1 - p].0 == k);
    }
}

/// The levels that an order walks, in its order.
spec fn walked(book: BookView<Fixed>, side: Fixed) -> Seq<(i64, Fixed)> {
    if side.units > 0 {
        upward(book.asks)
    } else {
        downward(book.bids)
    }
}

/// A buy takes from the asks, the lowest first, and a sell from the bids, the highest first: whole steps
/// at the price that the level displays.
pub proof fn law_orders_take_the_best_prices_first(
    broker: BrokerView<Fixed>,
    i: int,
    side: Fixed,
    book: BookView<Fixed>,
    qty: Fixed,
    a: int,
)
    requires
        book.instrument is Some,
        is_countable(
            taken_side(book, side),
            taken_before(broker, i, side),
            qty,
            book.instrument->0.step,
        ),
        0 <= a < broker.fills(i, side, book, qty).len(),
    ensures
        ({
            let fills = broker.fills(i, side, book, qty);
            let meta = book.instrument->0;
            &&& taken_side(book, side).contains_key(fills[a].0)
            &&& fills[a].1.units > 0
            &&& fills[a].1.units % meta.step.units == 0
            &&& fills[a].2 == Fixed::spec_from_i64(fills[a].0).spec_times(meta.tick)
            &&& forall|b: int|
                a < b < fills.len() ==> if side.units > 0 {
                    fills[a].0 < (#[trigger] fills[b]).0
                } else {
                    fills[a].0 > fills[b].0
                }
        }),
{
    let meta = book.instrument->0;
    let shown = taken_side(book, side);
    let used = taken_before(broker, i, side);
    lemma_ordered_levels(shown, used);
    lemma_levels_differ(shown);
    let levels = walked(book, side);
    lemma_walk_places(levels, used, qty, meta, side.units > 0);
    let fills = broker.fills(i, side, book, qty);
    assert(fills == walk(levels, used, qty, meta));
    let f = fills[a];
    assert(is_among(fills[a], levels, meta));
    let p = choose|p: int| is_at(f, levels, meta, p);
    assert(shown.contains_key(levels[p].0));
}

/// No order passes over a step of depth: at every price that is better than one at which it fills, and,
/// where a step of the order is left, at every price, less than a step is left of what is displayed.
pub proof fn law_orders_pass_over_no_depth(
    broker: BrokerView<Fixed>,
    i: int,
    side: Fixed,
    book: BookView<Fixed>,
    qty: Fixed,
    k: i64,
)
    requires
        book.instrument is Some,
        is_countable(
            taken_side(book, side),
            taken_before(broker, i, side),
            qty,
            book.instrument->0.step,
        ),
        taken_side(book, side).contains_key(k),
        ({
            let fills = broker.fills(i, side, book, qty);
            ||| qty.units - filled_units(fills) >= book.instrument->0.step.units
            ||| exists|j: int|
                0 <= j < fills.len() && (if side.units > 0 {
                    k < (#[trigger] fills[j]).0
                } else {
                    k > fills[j].0
                })
        }),
    ensures
        left_of(taken_side(book, side)[k], at_or_zero(taken_before(broker, i, side), k))
            - filled_at(broker.fills(i, side, book, qty), k) < book.instrument->0.step.units,
{
    let meta = book.instrument->0;
    let shown = taken_side(book, side);
    let used = taken_before(broker, i, side);
    lemma_ordered_levels(shown, used);
    lemma_levels_differ(shown);
    let levels = walked(book, side);
    let fills = broker.fills(i, side, book, qty);
    assert(fills == walk(levels, used, qty, meta));
    assert(exists|p: int| 0 <= p < levels.len() && (#[trigger] levels[p]).0 == k);
    let p = choose|p: int| 0 <= p < levels.len() && (#[trigger] levels[p]).0 == k;
    assert(levels[p].1 == shown[k]);
    lemma_walk_spends(levels, used, qty, meta, side.units > 0, p);
    lemma_walk_places(levels, used, qty, meta, side.units > 0);
    if qty.units - filled_units(fills) < meta.step.units {
        let j = choose|j: int|
            0 <= j < fills.len() && (if side.units > 0 {
                k < (#[trigger] fills[j]).0
            } else {
                k > fills[j].0
            });
        let f = fills[j];
        assert(is_among(fills[j], levels, meta));
        let n = choose|n: int| is_at(f, levels, meta, n);
        assert(levels[n].0 == fills[j].0);
        assert(n > p) by {
            if n < p {
                assert(levels[n].0 != levels[p].0);
            }
        }
    }
}

/// What fills are worth, each cut off.
proof fn lemma_worth(fills: Seq<(i64, Fixed, Fixed)>, low: int, high: int)
    requires
        are_positive(fills),
        0 <= low,
        high * filled_units(fills) <= i64::MAX * SCALE,
        forall|j: int|
            0 <= j < fills.len() ==> low <= (#[trigger] fills[j]).2.units <= high,
    ensures
        ({
            let worth = total(fill_values(fills)).units as int;
            let q = filled_units(fills);
            &&& worth * SCALE <= high * q
            &&& low * q <= worth * SCALE + fills.len() * SCALE
            &&& worth >= 0
            &&& q >= 0
        }),
    decreases fills.len(),
{
    if fills.len() > 0 {
        let fewer = fills.drop_last();
        let n = fills.len() - 1;
        let f = fills[n];
        assert(are_positive(fewer));
        assert forall|j: int| 0 <= j < fewer.len() implies low <= (#[trigger] fewer[j]).2.units
            <= high by {
            assert(fewer[j] == fills[j]);
        }
        assert(low <= fills[n].2.units <= high && fills[n].1.units > 0);
        let (q, r) = (f.1.units as int, filled_units(fewer));
        assert(high * (r + q) == high * r + high * q) by (nonlinear_arith);
        assert(high * q >= 0) by (nonlinear_arith)
            requires
                high >= 0,
                q > 0,
        ;
        lemma_worth(fewer, low, high);
        assert(0 <= low * q <= q * f.2.units <= high * q) by (nonlinear_arith)
            requires
                0 <= low <= f.2.units <= high,
                q > 0,
        ;
        assert(high * r >= 0) by (nonlinear_arith)
            requires
                high >= 0,
                r >= 0,
        ;
        lemma_product(f.1, f.2);
        let w = f.1.spec_times(f.2).units as int;
        assert(fill_values(fills).drop_last() =~= fill_values(fewer));
        assert(fill_values(fills).last() == f.1.spec_times(f.2));
        assert(low * (r + q) == low * r + low * q) by (nonlinear_arith);
        let part = total(fill_values(fewer)).units as int;
        assert(part + w <= i64::MAX);
    } else {
        assert(fill_values(fills).len() == 0);
    }
}

/// The price of a fill is the average of the prices at which it was filled: not above the highest, and
/// below the lowest by no more than the roundings.
pub proof fn law_fills_are_priced_between_their_levels(
    broker: BrokerView<Fixed>,
    i: int,
    side: Fixed,
    book: BookView<Fixed>,
    qty: Fixed,
    low: int,
    high: int,
)
    requires
        book.instrument is Some,
        book.instrument->0.step.units > 0,
        0 <= qty.units <= i64::MAX / 2,
        broker.fills(i, side, book, qty).len() > 0,
        0 <= low <= high <= i64::MAX,
        high * filled_units(broker.fills(i, side, book, qty)) <= i64::MAX * SCALE,
        forall|j: int|
            0 <= j < broker.fills(i, side, book, qty).len() ==> low <= (#[trigger] broker.fills(
                i,
                side,
                book,
                qty,
            )[j]).2.units <= high,
    ensures
        ({
            let fills = broker.fills(i, side, book, qty);
            let q = filled_units(fills);
            let price = total(fill_values(fills)).spec_over(total(fill_sizes(fills))).units;
            &&& q > 0
            &&& price <= high
            &&& low * q < (price + 1) * q + fills.len() * SCALE
        }),
{
    let meta = book.instrument->0;
    let fills = broker.fills(i, side, book, qty);
    let levels = walked(book, side);
    let used = taken_before(broker, i, side);
    assert(fills == walk(levels, used, qty, meta));
    lemma_walk_is_bounded(levels, used, qty, meta);
    lemma_total_is_exact(fills);
    lemma_worth(fills, low, high);
    let (w, q) = (total(fill_values(fills)), total(fill_sizes(fills)));
    let (v, n) = (w.units as int, q.units as int);
    assert(v * SCALE >= 0 && v * SCALE <= i64::MAX * n) by (nonlinear_arith)
        requires
            v >= 0,
            v * SCALE <= high * n,
            high <= i64::MAX,
            n > 0,
            SCALE == 1_000_000_000,
    ;
    lemma_quotient(w, q);
    let price = w.spec_over(q).units as int;
    assert(price * n <= v * SCALE < price * n + n) by (nonlinear_arith)
        requires
            cuts(price, v * SCALE, n),
            v * SCALE >= 0,
    ;
    assert(price <= high) by (nonlinear_arith)
        requires
            price * n <= high * n,
            n > 0,
    ;
    assert((price + 1) * n == price * n + n) by (nonlinear_arith);
}

} // verus!
