//! What orders take from the levels of a book, in decimal numbers of fixed scale.
use crate::book::{placed_all, price_key, side_after, sound_len, BookView, Instrument};
use crate::causality::is_set_up;
use crate::config::{law_two_instruments, Config};
use crate::engine::EngineView;
use crate::error::Error;
use crate::fixed::{abs, quotient_of, Fixed, SCALE};
use crate::health::{lemma_passes, lemma_tick_keeps, passes};
use crate::ladder::{downward, lemma_listing_exists, ordered_keys, upward};
use crate::laws::law_only_displayed_prices_are_restored;
use crate::model::Model;
use crate::number::{is_positive, ratio, total, Real};
use crate::paper::{
    at_or_zero, depleted, fill_sizes, restored, side_index, take_of, walk, BrokerView, DAY,
};
use crate::replay::lemma_config_stays;
use crate::stop::lemma_parts;
use crate::text::{lemma_place, place_of};
use crate::types::{EventView, KindView, MS};
use vstd::prelude::*;

verus! {

/// By how much a fill may exceed what a level or an order has left: a billionth of a step, which is
/// less than one unit for steps below one.
pub open spec fn slack(step: Fixed) -> int {
    step.units as int / SCALE as int
}

/// The constants of the walk, in units.
pub proof fn lemma_constants(step: Fixed)
    requires
        step.units > 0,
    ensures
        ratio::<Fixed>(1, 1_000_000_000).units == 1,
        step.spec_times(ratio::<Fixed>(1, 2)).units == step.units / 2,
{
    let one: int = 1_000_000_000;
    let big: int = 1_000_000_000_000_000_000;
    let two: int = 2_000_000_000;
    assert(one * one == big && big / big == 1 && big / two == 500_000_000) by (nonlinear_arith)
        requires
            one == 1_000_000_000,
            big == 1_000_000_000_000_000_000,
            two == 2_000_000_000,
    ;
    assert(quotient_of(one * one, big) == 1);
    assert(quotient_of(one * one, two) == 500_000_000);
    assert(ratio::<Fixed>(1, 2).units == 500_000_000);
    assert((step.units * 500_000_000) / 1_000_000_000 == step.units as int / 2) by (nonlinear_arith)
        requires
            step.units > 0,
    ;
    assert(step.units * 500_000_000 >= 0);
}

/// What an order takes of a level exceeds neither what the order nor what the level has left, but
/// for the slack.
pub proof fn lemma_take(left: Fixed, q: Fixed, used: Fixed, step: Fixed)
    requires
        step.units > 0,
    ensures
        ({
            let take = take_of(left, q, used, step).units;
            let free = q.spec_minus(used).units;
            take > 0 ==> {
                &&& 0 < left.units
                &&& 0 < free
                &&& take <= left.units + slack(step)
                &&& take <= free + slack(step)
            }
        }),
{
    lemma_constants(step);
    let free = q.spec_minus(used).spec_larger(Fixed::spec_from_i64(0));
    let m = left.spec_smaller(free).units as int;
    let s = step.units as int;
    let x = left.spec_smaller(free).spec_over(step);
    let y = x.spec_plus(ratio::<Fixed>(1, 1_000_000_000));
    let n = y.units as int / SCALE as int;
    let take = take_of(left, q, used, step).units as int;
    let scale = SCALE as int;
    if m <= 0 {
        assert(m * scale <= 0) by (nonlinear_arith)
            requires
                m <= 0,
                scale == 1_000_000_000,
        ;
        assert(abs(m * scale) / s >= 0) by (nonlinear_arith)
            requires
                s > 0,
                abs(m * scale) >= 0,
        ;
        assert(m == 0 ==> m * scale == 0);
        assert(0int / s == 0) by (nonlinear_arith)
            requires
                s > 0,
        ;
        assert(x.units <= 0);
        assert(n <= 0);
        lemma_whole_steps(y.spec_floored().units as int, s);
    } else {
        assert(m * scale > 0) by (nonlinear_arith)
            requires
                m > 0,
                scale == 1_000_000_000,
        ;
        assert((m * scale) / s >= 0 && (m * scale) / s * s <= m * scale) by (nonlinear_arith)
            requires
                s > 0,
                m * scale > 0,
        ;
        assert(0 <= x.units <= (m * scale) / s);
        lemma_whole_steps(y.spec_floored().units as int, s);
        if n >= 1 {
            assert(y.units == x.units + 1);
            assert(n * scale <= (m * scale) / s + 1);
            assert(n * s <= m + s / scale) by (nonlinear_arith)
                requires
                    s > 0,
                    scale == 1_000_000_000,
                    n * scale <= (m * scale) / s + 1,
                    (m * scale) / s * s <= m * scale,
            {
                assert((n * scale) * s <= ((m * scale) / s + 1) * s);
                assert((n * s - m) * scale <= s);
            }
        }
    }
}

/// A whole number of steps, as the walk computes it.
proof fn lemma_whole_steps(f: int, s: int)
    requires
        s > 0,
    ensures
        f <= 0 ==> quotient_of(f * s, SCALE as int) <= 0,
        f > 0 && f % SCALE as int == 0 ==> quotient_of(f * s, SCALE as int) == f / SCALE as int * s,
{
    let scale = SCALE as int;
    if f <= 0 {
        assert(f * s <= 0) by (nonlinear_arith)
            requires
                f <= 0,
                s > 0,
        ;
        assert(abs(f * s) / scale >= 0);
    } else if f % scale == 0 {
        assert(f * s > 0) by (nonlinear_arith)
            requires
                f > 0,
                s > 0,
        ;
        assert((f * s) / scale == f / scale * s) by (nonlinear_arith)
            requires
                f % scale == 0,
                scale == 1_000_000_000,
        {
            assert(f == f / scale * scale);
            assert(f * s == (f / scale * s) * scale);
        }
    }
}

/// The sum of the quantities of fills, in units.
pub open spec fn filled_units(fills: Seq<(i64, Fixed, Fixed)>) -> int
    decreases fills.len(),
{
    if fills.len() == 0 {
        0
    } else {
        filled_units(fills.drop_last()) + fills.last().1.units
    }
}

/// The sum of the quantities of fills at one level, in units.
pub open spec fn filled_at(fills: Seq<(i64, Fixed, Fixed)>, k: i64) -> int
    decreases fills.len(),
{
    if fills.len() == 0 {
        0
    } else {
        filled_at(fills.drop_last(), k) + if fills.last().0 == k {
            fills.last().1.units as int
        } else {
            0
        }
    }
}

/// Whether every fill is of a quantity above zero.
pub open spec fn are_positive(fills: Seq<(i64, Fixed, Fixed)>) -> bool {
    forall|j: int| 0 <= j < fills.len() ==> (#[trigger] fills[j]).1.units > 0
}

pub proof fn lemma_fills_join(
    a: Seq<(i64, Fixed, Fixed)>,
    b: Seq<(i64, Fixed, Fixed)>,
    k: i64,
)
    ensures
        filled_units(a + b) == filled_units(a) + filled_units(b),
        filled_at(a + b, k) == filled_at(a, k) + filled_at(b, k),
    decreases b.len(),
{
    if b.len() == 0 {
        assert(a + b =~= a);
    } else {
        lemma_fills_join(a, b.drop_last(), k);
        assert((a + b).drop_last() =~= a + b.drop_last());
        assert((a + b).last() == b.last());
    }
}

pub proof fn lemma_one_fill(f: (i64, Fixed, Fixed), k: i64)
    ensures
        filled_units(seq![f]) == f.1.units,
        filled_at(seq![f], k) == if f.0 == k {
            f.1.units as int
        } else {
            0
        },
{
    reveal_with_fuel(filled_units, 2);
    reveal_with_fuel(filled_at, 2);
    assert(seq![f].drop_last() =~= Seq::empty());
}

/// A sum of quantities that stays in range is exact.
pub proof fn lemma_total_is_exact(fills: Seq<(i64, Fixed, Fixed)>)
    requires
        are_positive(fills),
        filled_units(fills) <= i64::MAX,
    ensures
        total(fill_sizes(fills)).units == filled_units(fills),
        filled_units(fills) >= 0,
        fills.len() > 0 ==> filled_units(fills) > 0,
    decreases fills.len(),
{
    if fills.len() > 0 {
        assert(are_positive(fills.drop_last()));
        lemma_total_is_exact(fills.drop_last());
        assert(fill_sizes(fills).drop_last() =~= fill_sizes(fills.drop_last()));
    } else {
        assert(fill_sizes(fills).len() == 0);
    }
}

/// The fill at the first level of a walk.
pub open spec fn first_fill(levels: Seq<(i64, Fixed)>, used: Map<i64, Fixed>, left: Fixed, meta: Instrument<
    Fixed,
>) -> Seq<(i64, Fixed, Fixed)> {
    let (p, q) = levels.first();
    let take = take_of(left, q, at_or_zero(used, p), meta.step);
    if take.units > 0 {
        seq![(p, take, Fixed::spec_from_i64(p).spec_times(meta.tick))]
    } else {
        Seq::empty()
    }
}

/// What a walk takes is positive at each level, and in all no more than the order, but for the
/// slack.
pub proof fn lemma_walk_is_bounded(
    levels: Seq<(i64, Fixed)>,
    used: Map<i64, Fixed>,
    left: Fixed,
    meta: Instrument<Fixed>,
)
    requires
        meta.step.units > 0,
    ensures
        are_positive(walk(levels, used, left, meta)),
        filled_units(walk(levels, used, left, meta)) >= 0,
        filled_units(walk(levels, used, left, meta)) > 0 ==> filled_units(
            walk(levels, used, left, meta),
        ) <= left.units + slack(meta.step),
    decreases levels.len(),
{
    lemma_constants(meta.step);
    if levels.len() > 0 {
        let (p, q) = levels.first();
        let take = take_of(left, q, at_or_zero(used, p), meta.step);
        lemma_take(left, q, at_or_zero(used, p), meta.step);
        let fill = first_fill(levels, used, left, meta);
        let rest = if take.units > 0 {
            left.spec_minus(take)
        } else {
            left
        };
        let tail = walk(levels.drop_first(), used, rest, meta);
        lemma_walk_is_bounded(levels.drop_first(), used, rest, meta);
        lemma_fills_join(fill, tail, p);
        lemma_one_fill((p, take, Fixed::spec_from_i64(p).spec_times(meta.tick)), p);
    }
}

/// The steps of an instrument halve to a number that is not negative.
pub proof fn lemma_half_step(step: Fixed)
    requires
        step.units > 0,
    ensures
        step.spec_times(ratio::<Fixed>(1, 2)).units >= 0,
{
    lemma_constants(step);
}

/// Whether the keys of levels differ.
pub open spec fn are_distinct(levels: Seq<(i64, Fixed)>) -> bool {
    forall|a: int, b: int| 0 <= a < b < levels.len() ==> (#[trigger] levels[a]).0 != (
    #[trigger] levels[b]).0
}

/// What a walk takes of one level is no more than what is left of it, but for the slack.
proof fn lemma_walk_at(
    levels: Seq<(i64, Fixed)>,
    used: Map<i64, Fixed>,
    left: Fixed,
    meta: Instrument<Fixed>,
    k: i64,
    q: Fixed,
)
    requires
        meta.step.units > 0,
        are_distinct(levels),
        forall|j: int| 0 <= j < levels.len() && (#[trigger] levels[j]).0 == k ==> levels[j].1 == q,
    ensures
        ({
            let taken = filled_at(walk(levels, used, left, meta), k);
            let free = q.spec_minus(at_or_zero(used, k)).units;
            &&& taken >= 0
            &&& taken > 0 ==> 0 < free && taken <= free + slack(meta.step)
            &&& taken > 0 ==> exists|j: int| 0 <= j < levels.len() && (#[trigger] levels[j]).0 == k
        }),
    decreases levels.len(),
{
    if levels.len() > 0 {
        let (p, shown) = levels.first();
        let take = take_of(left, shown, at_or_zero(used, p), meta.step);
        lemma_take(left, shown, at_or_zero(used, p), meta.step);
        let fill = first_fill(levels, used, left, meta);
        let rest = if take.units > 0 {
            left.spec_minus(take)
        } else {
            left
        };
        let others = levels.drop_first();
        let tail = walk(others, used, rest, meta);
        assert forall|a: int, b: int| 0 <= a < b < others.len() implies (#[trigger] others[a]).0
            != (#[trigger] others[b]).0 by {
            assert(levels[a + 1].0 != levels[b + 1].0);
        }
        assert forall|j: int| 0 <= j < others.len() && (#[trigger] others[j]).0 == k implies others[j].1
            == q by {
            assert(levels[j + 1].0 == k);
        }
        lemma_walk_at(others, used, rest, meta, k, q);
        lemma_fills_join(fill, tail, k);
        lemma_one_fill((p, take, Fixed::spec_from_i64(p).spec_times(meta.tick)), k);
        if filled_at(tail, k) > 0 {
            let j = choose|j: int| 0 <= j < others.len() && (#[trigger] others[j]).0 == k;
            assert(levels[0].0 != levels[j + 1].0);
            assert(levels[j + 1].0 == k);
        }
        if p == k {
            assert(levels[0].0 == k);
        }
    }
}

/// What was taken grows at each level by the fills there, where the sum stays in range.
proof fn lemma_depleted(m: Map<i64, Fixed>, fills: Seq<(i64, Fixed, Fixed)>, k: i64)
    requires
        are_positive(fills),
        0 <= at_or_zero(m, k).units,
        at_or_zero(m, k).units + filled_at(fills, k) <= i64::MAX,
    ensures
        at_or_zero(depleted(m, fills), k).units == at_or_zero(m, k).units + filled_at(fills, k),
        filled_at(fills, k) >= 0,
    decreases fills.len(),
{
    if fills.len() > 0 {
        assert(are_positive(fills.drop_last()));
        assert(fills.last().1.units > 0);
        lemma_depleted(m, fills.drop_last(), k);
    }
}

/// Whether the quantities of a side leave room for another fill in the range of the numbers.
pub open spec fn has_room(side: Map<i64, Fixed>) -> bool {
    &&& side.dom().finite()
    &&& forall|k: i64| #[trigger] side.contains_key(k) ==> 0 <= side[k].units <= i64::MAX / 2
}

/// Whether no more was taken of any level of a side than it displays, but for the slack.
pub open spec fn is_covered(side: Map<i64, Fixed>, used: Map<i64, Fixed>, step: Fixed) -> bool {
    forall|k: i64| #[trigger]
        side.contains_key(k) ==> 0 <= at_or_zero(used, k).units <= side[k].units + slack(step)
}

/// Whether no more was taken of any level of the book of an asset than it displays, but for the
/// slack.
pub open spec fn is_backed(book: BookView<Fixed>, consumed: Seq<Map<i64, Fixed>>, i: int) -> bool {
    match book.instrument {
        None => book.bids == Map::<i64, Fixed>::empty() && book.asks == Map::<i64, Fixed>::empty(),
        Some(meta) => meta.step.units > 0 && is_covered(book.bids, consumed[2 * i], meta.step)
            && is_covered(book.asks, consumed[2 * i + 1], meta.step),
    }
}

pub proof fn lemma_levels_differ(side: Map<i64, Fixed>)
    requires
        side.dom().finite(),
    ensures
        are_distinct(upward(side)),
        are_distinct(downward(side)),
        forall|j: int|
            0 <= j < upward(side).len() ==> side.contains_key((#[trigger] upward(side)[j]).0)
                && upward(side)[j].1 == side[upward(side)[j].0],
        forall|j: int|
            0 <= j < downward(side).len() ==> side.contains_key((#[trigger] downward(side)[j]).0)
                && downward(side)[j].1 == side[downward(side)[j].0],
{
    lemma_listing_exists(side);
    let keys = ordered_keys(side);
    assert forall|j: int| 0 <= j < upward(side).len() implies side.contains_key(
        (#[trigger] upward(side)[j]).0,
    ) && upward(side)[j].1 == side[upward(side)[j].0] by {
        assert(side.contains_key(keys[j]));
    }
    assert forall|j: int| 0 <= j < downward(side).len() implies side.contains_key(
        (#[trigger] downward(side)[j]).0,
    ) && downward(side)[j].1 == side[downward(side)[j].0] by {
        assert(downward(side)[j] == upward(side)[keys.len() - 1 - j]);
    }
    assert forall|x: int, y: int| 0 <= x < y < upward(side).len() implies (#[trigger] upward(
        side,
    )[x]).0 != (#[trigger] upward(side)[y]).0 by {
        assert(keys[x] < keys[y]);
    }
    assert forall|x: int, y: int| 0 <= x < y < downward(side).len() implies (#[trigger] downward(
        side,
    )[x]).0 != (#[trigger] downward(side)[y]).0 by {
        assert(keys[keys.len() - 1 - y] < keys[keys.len() - 1 - x]);
    }
}

/// A walk over the levels of a side takes no more of any than it displays, but for the slack, and
/// what it takes is noted there.
proof fn lemma_walk_is_covered(
    side: Map<i64, Fixed>,
    levels: Seq<(i64, Fixed)>,
    used: Map<i64, Fixed>,
    left: Fixed,
    meta: Instrument<Fixed>,
)
    requires
        meta.step.units > 0,
        has_room(side),
        levels == upward(side) || levels == downward(side),
        is_covered(side, used, meta.step),
    ensures
        ({
            let fills = walk(levels, used, left, meta);
            &&& is_covered(side, depleted(used, fills), meta.step)
            &&& forall|k: i64| #[trigger]
                side.contains_key(k) ==> at_or_zero(depleted(used, fills), k).units == at_or_zero(
                    used,
                    k,
                ).units + filled_at(fills, k)
        }),
{
    let fills = walk(levels, used, left, meta);
    let after = depleted(used, fills);
    lemma_levels_differ(side);
    lemma_walk_is_bounded(levels, used, left, meta);
    assert forall|k: i64| #[trigger] side.contains_key(k) implies at_or_zero(after, k).units
        == at_or_zero(used, k).units + filled_at(fills, k) && 0 <= at_or_zero(after, k).units
        <= side[k].units + slack(meta.step) by {
        let q = side[k];
        lemma_walk_at(levels, used, left, meta, k, q);
        lemma_depleted(used, fills, k);
    }
}

/// A trade takes no more of any level than it displays, but for the slack: the depth of a level
/// serves once.
pub proof fn law_fills_stay_within_levels(
    broker: BrokerView<Fixed>,
    j: int,
    e: EventView<Fixed>,
    books: Seq<BookView<Fixed>>,
    c: Config<Fixed>,
    i: int,
)
    requires
        0 <= i < 2,
        0 <= j < 2,
        broker.consumed.len() == 4,
        has_room(books[i].bids),
        has_room(books[i].asks),
        is_backed(books[i], broker.consumed, i),
        broker.pending[j] is Some,
        books[j].instrument is Some,
    ensures
        is_backed(books[i], broker.traded(j, e, books, c).0.consumed, i),
{
    if i == j {
        let o = broker.pending[i]->0;
        let meta = books[i].instrument->0;
        let k = side_index(i, o.side);
        if is_positive(o.side) {
            lemma_walk_is_covered(
                books[i].asks,
                upward(books[i].asks),
                broker.consumed[k],
                o.qty,
                meta,
            );
        } else {
            lemma_walk_is_covered(
                books[i].bids,
                downward(books[i].bids),
                broker.consumed[k],
                o.qty,
                meta,
            );
        }
    }
}

/// Where an order fills, what was taken of each displayed level grows by exactly what filled there.
pub proof fn law_fills_deplete_their_levels(
    broker: BrokerView<Fixed>,
    i: int,
    e: EventView<Fixed>,
    books: Seq<BookView<Fixed>>,
    c: Config<Fixed>,
    k: i64,
)
    requires
        0 <= i < 2,
        broker.consumed.len() == 4,
        has_room(books[i].bids),
        has_room(books[i].asks),
        is_backed(books[i], broker.consumed, i),
        broker.pending[i] is Some,
        books[i].instrument is Some,
        !broker.traded(i, e, books, c).2,
        ({
            let o = broker.pending[i]->0;
            let side = if is_positive(o.side) {
                books[i].asks
            } else {
                books[i].bids
            };
            &&& side.contains_key(k)
            &&& is_positive(total(fill_sizes(broker.fills(i, o.side, books[i], o.qty))))
        }),
    ensures
        ({
            let o = broker.pending[i]->0;
            let n = side_index(i, o.side);
            let after = broker.traded(i, e, books, c).0;
            at_or_zero(after.consumed[n], k).units == at_or_zero(broker.consumed[n], k).units
                + filled_at(broker.fills(i, o.side, books[i], o.qty), k)
        }),
{
    let o = broker.pending[i]->0;
    let meta = books[i].instrument->0;
    let n = side_index(i, o.side);
    if is_positive(o.side) {
        lemma_walk_is_covered(
            books[i].asks,
            upward(books[i].asks),
            broker.consumed[n],
            o.qty,
            meta,
        );
    } else {
        lemma_walk_is_covered(
            books[i].bids,
            downward(books[i].bids),
            broker.consumed[n],
            o.qty,
            meta,
        );
    }
}

/// An event keeps what was taken of every level within what it displays, but for the slack, where
/// that holds behind what the event says of liquidity.
pub proof fn law_events_stay_within_levels(
    broker: BrokerView<Fixed>,
    e: EventView<Fixed>,
    books: Seq<BookView<Fixed>>,
    c: Config<Fixed>,
    updated: Option<usize>,
    valid: bool,
    i: int,
)
    requires
        0 <= i < 2,
        updated is Some ==> updated->0 < 2,
        broker.after(e, books, c, updated, valid).1 is Ok,
        broker.consumed_after(e, books, c, updated).len() == 4,
        has_room(books[i].bids),
        has_room(books[i].asks),
        is_backed(books[i], broker.consumed_after(e, books, c, updated), i),
    ensures
        is_backed(books[i], broker.after(e, books, c, updated, valid).0.consumed, i),
        broker.after(e, books, c, updated, valid).0.consumed.len() == 4,
{
    lemma_parts(broker, e, books, c, updated, valid);
    lemma_news_consume(broker, e, books, c, updated, valid);
    let told = broker.informed(e, books, c, updated).0;
    let dated = told.marked(books, e.recv_ns, c).on_day((e.utc_ns / DAY) as u64);
    let ready = told.prepared(e, books, c, valid).0;
    lemma_rules_take_nothing(dated, e, c, valid);
    lemma_rules_take_nothing(ready.marked(books, e.recv_ns, c), e, c, valid);
    if updated is Some && ready.due(updated->0 as int, e, books, c, valid) {
        let j = updated->0 as int;
        law_fills_stay_within_levels(ready, j, e, books, c, i);
        lemma_trade_keeps_sides(ready, j, e, books, c);
        let met = ready.traded(j, e, books, c).0;
        lemma_rules_take_nothing(met.marked(books, e.recv_ns, c), e, c, valid);
    }
}

pub proof fn lemma_rules_take_nothing(
    broker: BrokerView<Fixed>,
    e: EventView<Fixed>,
    c: Config<Fixed>,
    valid: bool,
)
    ensures
        broker.enforced(e, c, valid).0.consumed == broker.consumed,
{
}

proof fn lemma_trade_keeps_sides(
    broker: BrokerView<Fixed>,
    j: int,
    e: EventView<Fixed>,
    books: Seq<BookView<Fixed>>,
    c: Config<Fixed>,
)
    requires
        0 <= j < 2,
        broker.consumed.len() == 4,
    ensures
        broker.traded(j, e, books, c).0.consumed.len() == 4,
{
}

/// What an accepted event says of liquidity reaches the account.
pub proof fn lemma_news_consume(
    broker: BrokerView<Fixed>,
    e: EventView<Fixed>,
    books: Seq<BookView<Fixed>>,
    c: Config<Fixed>,
    updated: Option<usize>,
    valid: bool,
)
    requires
        broker.after(e, books, c, updated, valid).1 is Ok,
    ensures
        ({
            let told = broker.informed(e, books, c, updated).0;
            let dated = told.marked(books, e.recv_ns, c).on_day((e.utc_ns / DAY) as u64);
            dated.consumed == broker.consumed_after(e, books, c, updated)
        }),
{
    reveal(BrokerView::after);
}

proof fn lemma_placed_elsewhere(m: Map<i64, Fixed>, levels: Seq<[Fixed; 2]>, tick: Fixed, k: i64)
    requires
        forall|j: int| 0 <= j < levels.len() ==> price_key((#[trigger] levels[j])[0], tick) != k,
    ensures
        placed_all(m, levels, tick).contains_key(k) == m.contains_key(k),
        m.contains_key(k) ==> placed_all(m, levels, tick)[k] == m[k],
    decreases levels.len(),
{
    if levels.len() > 0 {
        let fewer = levels.drop_last();
        assert forall|j: int| 0 <= j < fewer.len() implies price_key(
            (#[trigger] fewer[j])[0],
            tick,
        ) != k by {
            assert(price_key(levels[j][0], tick) != k);
        }
        lemma_placed_elsewhere(m, fewer, tick, k);
        assert(price_key(levels[levels.len() - 1][0], tick) != k);
    }
}

/// A side that an update changed stays covered: at the prices that it displays, what was taken is
/// forgotten, and the others are as they were.
proof fn lemma_update_covers(
    side: Map<i64, Fixed>,
    used: Map<i64, Fixed>,
    levels: Seq<[Fixed; 2]>,
    tick: Fixed,
    step: Fixed,
)
    requires
        step.units > 0,
        is_covered(side, used, step),
        has_room(side_after(side, levels, tick).0),
    ensures
        is_covered(side_after(side, levels, tick).0, restored(used, levels, tick), step),
{
    let n = sound_len(levels, tick);
    let next = side_after(side, levels, tick).0;
    assert forall|k: i64| #[trigger] next.contains_key(k) implies 0 <= at_or_zero(
        restored(used, levels, tick),
        k,
    ).units <= next[k].units + slack(step) by {
        law_only_displayed_prices_are_restored(used, levels, tick, k);
        if forall|j: int| 0 <= j < levels.len() ==> price_key((#[trigger] levels[j])[0], tick)
            != k {
            let sound = levels.take(n);
            lemma_sound_len(levels, tick);
            assert forall|j: int| 0 <= j < sound.len() implies price_key(
                (#[trigger] sound[j])[0],
                tick,
            ) != k by {
                assert(price_key(levels[j][0], tick) != k);
            }
            lemma_placed_elsewhere(side, sound, tick, k);
            assert(side.contains_key(k));
        }
    }
}

proof fn lemma_sound_len(levels: Seq<[Fixed; 2]>, tick: Fixed)
    ensures
        0 <= sound_len(levels, tick) <= levels.len(),
    decreases levels.len(),
{
    if levels.len() > 0 {
        lemma_sound_len(levels.drop_last(), tick);
    }
}

/// The book that an event reached is backed by what the account notes of the event.
proof fn lemma_news_back_a_book(
    broker: BrokerView<Fixed>,
    book: BookView<Fixed>,
    e: EventView<Fixed>,
    books: Seq<BookView<Fixed>>,
    c: Config<Fixed>,
    i: int,
    updated: Option<usize>,
)
    requires
        0 <= i < 2,
        broker.consumed.len() == 4,
        e.kind.symbol() is Some,
        place_of(c.names(), e.kind.symbol()->0) == Some(i),
        book.after(e).1 is Ok,
        books[i] == book.after(e).0,
        e.kind is Depth && books[i].fresh(e.recv_ns, c.stale_ms) && (!book.synced
            || books[i].last_id != book.last_id) <==> updated == Some(i as usize),
        is_backed(book, broker.consumed, i),
        has_room(books[i].bids),
        has_room(books[i].asks),
    ensures
        is_backed(books[i], broker.consumed_after(e, books, c, updated), i),
{
    let next = books[i];
    match e.kind {
        KindView::Depth { symbol, first_id, last_id, prev_id, bids, asks } => {
            if book.last_id is Some && !book.covers(book.last_id->0, last_id) && book.continues(
                book.last_id->0,
                first_id,
                last_id,
                prev_id,
            ) {
                let (levels, fault) = book.with_levels(bids, asks);
                let meta = book.instrument->0;
                if levels.top() is Some {
                    assert(next.top() == levels.top());
                    assert(0 <= c.stale_ms * MS);
                    assert(updated == Some(i as usize));
                    lemma_update_covers(
                        book.bids,
                        broker.consumed[2 * i],
                        bids,
                        meta.tick,
                        meta.step,
                    );
                    lemma_update_covers(
                        book.asks,
                        broker.consumed[2 * i + 1],
                        asks,
                        meta.tick,
                        meta.step,
                    );
                }
            }
        },
        KindView::Snapshot { symbol, last_id, bids, asks } => {
            let cleared = BookView::<Fixed> {
                bids: Map::empty(),
                asks: Map::empty(),
                synced: false,
                ..book
            };
            let levels = cleared.with_levels(bids, asks).0;
            lemma_held_keep_instrument(
                BookView {
                    last_id: Some(last_id),
                    generation: book.generation.wrapping_add(1),
                    buffer: Seq::empty(),
                    ..levels
                },
                book.buffer,
                e.recv_ns,
            );
        },
        _ => {},
    }
}

pub proof fn lemma_held_keep_instrument<R: Real>(book: BookView<R>, held: Seq<EventView<R>>, t: u64)
    ensures
        book.after_held(held, t).0.instrument == book.instrument,
    decreases held.len(),
{
    if held.len() > 0 {
        let e = held.first().received_at(t);
        let (next, r) = book.after_depth(e);
        assert(next.instrument == book.instrument);
        lemma_held_keep_instrument(next, held.drop_first(), t);
    }
}

/// Whether no more was taken of any level of either book than it displays, but for the slack.
pub open spec fn books_back_fills(engine: EngineView<Fixed>) -> bool {
    &&& engine.books.len() == 2
    &&& engine.broker.consumed.len() == 4
    &&& is_backed(engine.books[0], engine.broker.consumed, 0)
    &&& is_backed(engine.books[1], engine.broker.consumed, 1)
}

/// Whether the quantities of both books leave room in the range of the numbers.
pub open spec fn books_have_room(engine: EngineView<Fixed>) -> bool {
    &&& has_room(engine.books[0].bids)
    &&& has_room(engine.books[0].asks)
    &&& has_room(engine.books[1].bids)
    &&& has_room(engine.books[1].asks)
}

/// A new engine has taken nothing.
pub proof fn law_engines_start_backed(config: Config<Fixed>, models: Seq<Model<Fixed>>)
    ensures
        books_back_fills(EngineView::<Fixed>::started(config, models)),
{
}

/// What an accepted event that speaks of an asset does to the books.
pub proof fn lemma_routed<R: Real>(engine: EngineView<R>, e: EventView<R>)
    requires
        is_set_up(engine),
        engine.books.len() == 2,
        engine.delivered(e).1 is Ok,
        e.kind.symbol() is Some,
    ensures
        ({
            let (seen, moved) = engine.delivered(e);
            let place = place_of(engine.config.names(), e.kind.symbol()->0);
            let p = place->0;
            let book = engine.books[p];
            &&& place is Some
            &&& 0 <= p < 2
            &&& book.after(e).1 is Ok
            &&& seen.books == engine.books.update(p, book.after(e).0)
            &&& seen.broker == engine.broker
            &&& seen.config == engine.config
            &&& seen.models == engine.models
            &&& moved->Ok_0 == if e.kind is Depth && seen.books[p].fresh(
                e.recv_ns,
                engine.config.stale_ms,
            ) && (!book.synced || seen.books[p].last_id != book.last_id) {
                Some(p as usize)
            } else {
                None::<usize>
            }
        }),
{
    law_two_instruments(engine.config);
    lemma_place(engine.config.names(), e.kind.symbol()->0, 0);
}

/// What an event that speaks of no asset does to the books.
pub proof fn lemma_unrouted<R: Real>(engine: EngineView<R>, e: EventView<R>, i: int)
    requires
        0 <= i < 2,
        engine.books.len() == 2,
        e.kind.symbol() is None,
    ensures
        engine.delivered(e) == (engine, Ok::<Option<usize>, Error>(None)),
        engine.linked(e).0.books.len() == 2,
        engine.linked(e).0.books[i] == engine.books[i] || engine.linked(e).0.books[i]
            == engine.books[i].invalidated(),
        engine.linked(e).0.broker == engine.broker,
        engine.linked(e).0.config == engine.config,
        engine.linked(e).0.models == engine.models,
{
}

proof fn lemma_emptied_book_is_backed(
    book: BookView<Fixed>,
    consumed: Seq<Map<i64, Fixed>>,
    more: Seq<Map<i64, Fixed>>,
    i: int,
)
    requires
        is_backed(book, consumed, i),
    ensures
        is_backed(book.invalidated(), more, i),
{
}

proof fn lemma_advance_backs(engine: EngineView<Fixed>, e: EventView<Fixed>, i: int)
    requires
        0 <= i < 2,
        books_back_fills(engine),
    ensures
        engine.advanced(e).books.len() == 2,
        engine.advanced(e).broker == engine.broker,
        engine.advanced(e).config == engine.config,
        engine.advanced(e).models == engine.models,
        is_backed(engine.advanced(e).books[i], engine.broker.consumed, i),
{
    lemma_emptied_book_is_backed(engine.books[i], engine.broker.consumed, engine.broker.consumed, i);
}

/// An event that speaks of no asset leaves what was taken, or forgets all of it together with the
/// books.
proof fn lemma_unrouted_news(
    engine: EngineView<Fixed>,
    e: EventView<Fixed>,
    books: Seq<BookView<Fixed>>,
)
    requires
        engine.broker.consumed.len() == 4,
        e.kind.symbol() is None,
    ensures
        ({
            let consumed = engine.broker.consumed_after(e, books, engine.config, None);
            &&& consumed.len() == 4
            &&& consumed == engine.broker.consumed || e.kind is Disconnect
        }),
{
}

/// An event that speaks of one asset leaves what was taken of the other.
proof fn lemma_routed_news(
    broker: BrokerView<Fixed>,
    e: EventView<Fixed>,
    books: Seq<BookView<Fixed>>,
    c: Config<Fixed>,
    updated: Option<usize>,
    p: int,
)
    requires
        broker.consumed.len() == 4,
        e.kind.symbol() is Some,
        place_of(c.names(), e.kind.symbol()->0) == Some(p),
        0 <= p < 2,
    ensures
        ({
            let consumed = broker.consumed_after(e, books, c, updated);
            &&& consumed.len() == 4
            &&& consumed[2 * (1 - p)] == broker.consumed[2 * (1 - p)]
            &&& consumed[2 * (1 - p) + 1] == broker.consumed[2 * (1 - p) + 1]
        }),
{
}

/// What the account notes of an event backs the books behind it.
pub proof fn lemma_news_back_books(
    engine: EngineView<Fixed>,
    e: EventView<Fixed>,
    linked: EngineView<Fixed>,
    booked: EngineView<Fixed>,
    i: int,
)
    requires
        0 <= i < 2,
        is_set_up(engine),
        books_back_fills(engine),
        passes(engine, e, linked, booked),
        books_have_room(linked),
    ensures
        ({
            let moved = engine.advanced(e).delivered(e).1->Ok_0;
            let consumed = linked.broker.consumed_after(e, linked.books, linked.config, moved);
            &&& linked.broker == engine.broker
            &&& linked.config == engine.config
            &&& linked.models == engine.models
            &&& linked.books.len() == 2
            &&& moved is Some ==> moved->0 < 2
            &&& consumed.len() == 4
            &&& is_backed(linked.books[i], consumed, i)
        }),
{
    reveal(passes);
    let start = engine.advanced(e);
    let moved = start.delivered(e).1;
    lemma_advance_backs(engine, e, i);
    let held = engine.broker.consumed;
    if e.kind.symbol() is Some {
        lemma_routed(start, e);
        let p = place_of(engine.config.names(), e.kind.symbol()->0)->0;
        assert(linked == start.delivered(e).0);
        lemma_routed_news(engine.broker, e, linked.books, engine.config, moved->Ok_0, p);
        if p == i {
            lemma_news_back_a_book(
                engine.broker,
                start.books[i],
                e,
                linked.books,
                engine.config,
                i,
                moved->Ok_0,
            );
        }
    } else {
        lemma_unrouted(start, e, i);
        lemma_unrouted_news(start, e, linked.books);
        let consumed = start.broker.consumed_after(e, linked.books, start.config, None);
        lemma_emptied_book_is_backed(start.books[i], held, consumed, i);
    }
}

proof fn lemma_advice_takes_nothing(
    engine: EngineView<Fixed>,
    e: EventView<Fixed>,
    x: Seq<Fixed>,
    k: int,
)
    ensures
        engine.advised(e, x, k).0.broker.consumed == engine.broker.consumed,
    decreases engine.models.len() - k,
{
    if 0 <= k < engine.models.len() {
        let m = engine.models[k];
        if e.recv_ns > m.selected_through_ns && m.prediction(x).spec_is_finite() {
            let broker = engine.broker.decided(
                place_of(engine.config.names(), m.symbol@)->0,
                m.prediction(x),
                m.entry_buffer_bps,
                e,
                engine.books,
                engine.config,
            ).0;
            lemma_advice_takes_nothing(EngineView { broker, ..engine }, e, x, k + 1);
        }
    }
}

/// An accepted event keeps what was taken of every level of both books within what it displays, but
/// for the slack.
pub proof fn law_events_keep_books_backed(engine: EngineView<Fixed>, e: EventView<Fixed>)
    requires
        is_set_up(engine),
        books_back_fills(engine),
        engine.after(e).1 is Ok,
        books_have_room(engine.after(e).0),
    ensures
        books_back_fills(engine.after(e).0),
{
    let (linked, booked) = lemma_passes(engine, e);
    reveal(passes);
    lemma_tick_keeps(booked, e);
    lemma_tick_takes_nothing(booked, e);
    let ready = linked.checked(e.recv_ns);
    let moved = engine.advanced(e).delivered(e).1->Ok_0;
    lemma_account_accepts(engine, e);
    lemma_news_back_books(engine, e, linked, booked, 0);
    lemma_news_back_books(engine, e, linked, booked, 1);
    let valid = ready.valid_at(e.recv_ns);
    law_events_stay_within_levels(ready.broker, e, ready.books, ready.config, moved, valid, 0);
    law_events_stay_within_levels(ready.broker, e, ready.books, ready.config, moved, valid, 1);
}

pub proof fn lemma_tick_takes_nothing(engine: EngineView<Fixed>, e: EventView<Fixed>)
    ensures
        engine.ticked(e).0.broker.consumed == engine.broker.consumed,
{
    if engine.is_decision(e) {
        let next = engine.sampled(e.recv_ns);
        if next.features_at(e.recv_ns) is Some {
            lemma_advice_takes_nothing(next, e, next.features_at(e.recv_ns)->0, 0);
        }
    }
}

/// The account accepts what the engine accepts.
pub proof fn lemma_account_accepts<R: Real>(engine: EngineView<R>, e: EventView<R>)
    requires
        engine.after(e).1 is Ok,
    ensures
        ({
            let (seen, moved) = engine.advanced(e).delivered(e);
            seen.linked(e).0.checked(e.recv_ns).traded(e, moved->Ok_0).1 is Ok
        }),
{
    reveal(EngineView::handled);
}

/// Whether the quantities of both books leave room behind each of a list of events.
pub open spec fn run_has_room(engine: EngineView<Fixed>, events: Seq<EventView<Fixed>>) -> bool {
    forall|n: int|
        0 <= n <= events.len() ==> books_have_room(#[trigger] engine.ran(events.take(n)).0)
}

/// However long the engine runs, fills take no more of any level than it displays, but for the
/// slack.
pub proof fn law_runs_keep_books_backed(engine: EngineView<Fixed>, events: Seq<EventView<Fixed>>)
    requires
        is_set_up(engine),
        books_back_fills(engine),
        engine.ran(events).1 is Ok,
        run_has_room(engine, events),
    ensures
        books_back_fills(engine.ran(events).0),
        is_set_up(engine.ran(events).0),
    decreases events.len(),
{
    if events.len() > 0 {
        let fewer = events.drop_last();
        assert forall|n: int| 0 <= n <= fewer.len() implies books_have_room(
            #[trigger] engine.ran(fewer.take(n)).0,
        ) by {
            assert(fewer.take(n) =~= events.take(n));
        }
        law_runs_keep_books_backed(engine, fewer);
        let before = engine.ran(fewer).0;
        assert(events.take(events.len() as int) =~= events);
        assert(books_have_room(engine.ran(events.take(events.len() as int)).0));
        lemma_config_stays(before, events.last());
        law_events_keep_books_backed(before, events.last());
    }
}

} // verus!
