//! What fills and settlements do to the account, in whole units.
use crate::book::{price_key, BookView};
use crate::config::Config;
use crate::features::mid_at;
use crate::fixed::{abs, Fixed, SCALE};
use crate::laws::law_only_displayed_prices_are_restored;
use crate::meaning::arithmetic::{
    cuts, lemma_cuts_agree, lemma_product, lemma_quotient, lemma_signed,
};
use crate::number::{total, Real};
use crate::paper::{fee_of, fill_sizes, fill_values, BrokerView};
use crate::text::place_of;
use crate::types::{EventView, KindView};
use vstd::prelude::*;

verus! {

/// Whether a quantity is the last one that a history notes at or before a time, or zero where it notes
/// none.
pub open spec fn was_held(history: Seq<(u64, Fixed)>, t: u64, qty: Fixed) -> bool {
    ||| exists|k: int|
        0 <= k < history.len() && (#[trigger] history[k]).0 <= t && history[k].1 == qty && forall|
            j: int,
        |
            k < j < history.len() ==> (#[trigger] history[j]).0 > t
    ||| qty.units == 0 && forall|j: int|
        0 <= j < history.len() ==> (#[trigger] history[j]).0 > t
}

proof fn lemma_was_held(history: Seq<(u64, Fixed)>, t: u64, qty: Fixed)
    requires
        was_held(history, t, qty),
    ensures
        (match mid_at(history, t) {
            Some(q) => q,
            None => Fixed { units: 0 },
        }) == qty,
    decreases history.len(),
{
    if history.len() > 0 {
        let n = history.len() - 1;
        let fewer = history.drop_last();
        if history[n].0 > t {
            assert(was_held(fewer, t, qty)) by {
                if exists|k: int|
                    0 <= k < history.len() && (#[trigger] history[k]).0 <= t && history[k].1 == qty
                        && forall|j: int| k < j < history.len() ==> (#[trigger] history[j]).0 > t {
                    let k = choose|k: int|
                        0 <= k < history.len() && (#[trigger] history[k]).0 <= t && history[k].1
                            == qty && forall|j: int|
                            k < j < history.len() ==> (#[trigger] history[j]).0 > t;
                    assert(fewer[k] == history[k]);
                    assert forall|j: int| k < j < fewer.len() implies (#[trigger] fewer[j]).0
                        > t by {
                        assert(fewer[j] == history[j]);
                    }
                } else {
                    assert forall|j: int| 0 <= j < fewer.len() implies (#[trigger] fewer[j]).0
                        > t by {
                        assert(fewer[j] == history[j]);
                    }
                }
            }
            lemma_was_held(fewer, t, qty);
        } else {
            assert(history[n].1 == qty);
        }
    }
}

/// The product of three numbers, cut off twice.
proof fn lemma_product_of_three(a: Fixed, b: Fixed, c: Fixed)
    requires
        a.units > i64::MIN,
        b.units >= 0,
        abs(a.units as int) * b.units <= i64::MAX * SCALE,
        abs(a.units as int) * b.units * abs(c.units as int) <= i64::MAX * SCALE * SCALE,
    ensures
        ({
            let p = a.spec_times(b).spec_times(c).units as int;
            let exact = abs(a.units as int) * b.units * abs(c.units as int);
            &&& abs(p) * SCALE * SCALE <= exact < (abs(p) + 1) * SCALE * SCALE + SCALE * abs(
                c.units as int,
            )
            &&& (a.units >= 0) == (c.units >= 0) ==> p >= 0
            &&& (a.units >= 0) != (c.units >= 0) ==> p <= 0
            &&& a.spec_negated().spec_times(b).spec_times(c).units == -p
        }),
{
    let (x, y, z) = (a.units as int, b.units as int, c.units as int);
    assert(abs(x * y) == abs(x) * y) by (nonlinear_arith)
        requires
            y >= 0,
    ;
    lemma_product(a, b);
    let n = a.spec_times(b).units as int;
    assert(abs(n) * SCALE <= abs(x) * y < (abs(n) + 1) * SCALE);
    assert(abs(n * z) == abs(n) * abs(z)) by (nonlinear_arith);
    assert(abs(n) * abs(z) <= i64::MAX * SCALE) by (nonlinear_arith)
        requires
            abs(n) * SCALE <= abs(x) * y,
            abs(x) * y * abs(z) <= i64::MAX * SCALE * SCALE,
            abs(z) >= 0,
            SCALE == 1_000_000_000,
    ;
    lemma_product(a.spec_times(b), c);
    let p = a.spec_times(b).spec_times(c).units as int;
    assert(abs(p) * SCALE <= abs(n) * abs(z) < (abs(p) + 1) * SCALE);
    assert(abs(p) * SCALE * SCALE <= abs(x) * y * abs(z)) by (nonlinear_arith)
        requires
            abs(p) * SCALE <= abs(n) * abs(z),
            abs(n) * SCALE <= abs(x) * y,
            abs(z) >= 0,
            SCALE == 1_000_000_000,
    ;
    assert(abs(x) * y * abs(z) < (abs(p) + 1) * SCALE * SCALE + SCALE * abs(z)) by (nonlinear_arith)
        requires
            abs(n) * abs(z) < (abs(p) + 1) * SCALE,
            abs(x) * y < (abs(n) + 1) * SCALE,
            abs(z) >= 0,
            SCALE == 1_000_000_000,
    ;
    assert((x >= 0 ==> x * y >= 0) && (x <= 0 ==> x * y <= 0)) by (nonlinear_arith)
        requires
            y >= 0,
    ;
    assert((n >= 0 && z >= 0 ==> n * z >= 0) && (n >= 0 && z <= 0 ==> n * z <= 0) && (n <= 0 && z
        >= 0 ==> n * z <= 0) && (n <= 0 && z <= 0 ==> n * z >= 0)) by (nonlinear_arith);
    let other = a.spec_negated();
    assert(other.units == -x);
    assert((-x) * y == -(x * y)) by (nonlinear_arith);
    lemma_product(other, b);
    lemma_cuts_agree(other.spec_times(b).units as int, -n, -(x * y), SCALE as int);
    assert((-n) * z == -(n * z)) by (nonlinear_arith);
    lemma_product(other.spec_times(b), c);
    lemma_cuts_agree(other.spec_times(b).spec_times(c).units as int, -p, -(n * z), SCALE as int);
}

/// A settlement that was not seen before moves cash and funding by what its journal line says: the
/// quantity that was held at its own time, times the mark price, times the rate. With a rate above
/// zero a long pays and a short receives, with one below zero the other way round.
pub proof fn law_longs_pay_and_shorts_receive(
    broker: BrokerView<Fixed>,
    e: EventView<Fixed>,
    books: Seq<BookView<Fixed>>,
    c: Config<Fixed>,
    updated: Option<usize>,
    i: int,
    held: Fixed,
)
    requires
        0 <= i < 2,
        broker.per_symbol.len() == 2,
        held.units > i64::MIN,
        broker.informed(e, books, c, updated).1 is Ok,
        e.kind matches KindView::Funding { symbol, funding_ns, rate, mark } && {
            &&& place_of(c.names(), symbol) == Some(i)
            &&& !broker.funding_seen[i].contains(funding_ns)
            &&& was_held(broker.position_history[i], funding_ns, held)
            &&& abs(held.units as int) * mark.units <= i64::MAX * SCALE
            &&& abs(held.units as int) * mark.units * abs(rate.units as int) <= i64::MAX * SCALE
                * SCALE
        },
    ensures
        ({
            let (after, rows) = broker.informed(e, books, c, updated);
            let paid = rows->Ok_0[0].value;
            let rate = e.kind->Funding_rate.units as int;
            let mark = e.kind->Funding_mark.units as int;
            let exact = abs(held.units as int) * mark * abs(rate);
            &&& rows->Ok_0.len() == 1
            &&& after.cash == broker.cash.spec_plus(paid)
            &&& after.funding == broker.funding.spec_plus(paid)
            &&& after.per_symbol[i].funding == broker.per_symbol[i].funding.spec_plus(paid)
            &&& (held.units > 0 && rate > 0) || (held.units < 0 && rate < 0) ==> paid.units <= 0
            &&& (held.units < 0 && rate > 0) || (held.units > 0 && rate < 0) ==> paid.units >= 0
            &&& abs(paid.units as int) * SCALE * SCALE <= exact < (abs(paid.units as int) + 1)
                * SCALE * SCALE + SCALE * abs(rate)
        }),
{
    let t = e.kind->Funding_funding_ns;
    let rate = e.kind->Funding_rate;
    let mark = e.kind->Funding_mark;
    lemma_was_held(broker.position_history[i], t, held);
    assert(broker.held_at(i, t) == held);
    lemma_product_of_three(held.spec_negated(), mark, rate);
}

/// What a long pays for a settlement, a short of the same size receives, to the unit.
pub proof fn law_shorts_receive_what_longs_pay(
    long: BrokerView<Fixed>,
    short: BrokerView<Fixed>,
    e: EventView<Fixed>,
    books: Seq<BookView<Fixed>>,
    c: Config<Fixed>,
    updated: Option<usize>,
    i: int,
    held: Fixed,
)
    requires
        0 <= i < 2,
        held.units > i64::MIN,
        long.informed(e, books, c, updated).1 is Ok,
        short.informed(e, books, c, updated).1 is Ok,
        e.kind matches KindView::Funding { symbol, funding_ns, rate, mark } && {
            &&& place_of(c.names(), symbol) == Some(i)
            &&& !long.funding_seen[i].contains(funding_ns)
            &&& !short.funding_seen[i].contains(funding_ns)
            &&& was_held(long.position_history[i], funding_ns, held)
            &&& was_held(short.position_history[i], funding_ns, held.spec_negated())
            &&& abs(held.units as int) * mark.units <= i64::MAX * SCALE
            &&& abs(held.units as int) * mark.units * abs(rate.units as int) <= i64::MAX * SCALE
                * SCALE
        },
    ensures
        short.informed(e, books, c, updated).1->Ok_0[0].value.units == -long.informed(
            e,
            books,
            c,
            updated,
        ).1->Ok_0[0].value.units,
{
    let t = e.kind->Funding_funding_ns;
    let rate = e.kind->Funding_rate;
    let mark = e.kind->Funding_mark;
    lemma_was_held(long.position_history[i], t, held);
    lemma_was_held(short.position_history[i], t, held.spec_negated());
    assert(long.held_at(i, t) == held && short.held_at(i, t) == held.spec_negated());
    lemma_product_of_three(held.spec_negated(), mark, rate);
}

/// Whether an order is of the kind that the account submits: an entry of a flat position, or an exit
/// of the other side.
pub open spec fn is_ordinary(broker: BrokerView<Fixed>, i: int) -> bool {
    let o = broker.pending[i]->0;
    let held = broker.positions[i].qty.units;
    &&& broker.pending[i] is Some
    &&& o.side.units == SCALE || o.side.units == -SCALE
    &&& o.reduce ==> held != 0 && (held > 0 <==> o.side.units < 0)
    &&& !o.reduce ==> held == 0
}

/// Whether the amounts of a fill, of which the journal line tells, and of its position are in range.
pub open spec fn fill_fits(
    broker: BrokerView<Fixed>,
    i: int,
    qty: Fixed,
    price: Fixed,
    c: Config<Fixed>,
) -> bool {
    let p = broker.positions[i];
    let q = abs(qty.units as int);
    &&& qty.units > i64::MIN
    &&& -(i64::MAX / 2) <= p.qty.units <= i64::MAX / 2
    &&& q <= i64::MAX / 2
    &&& 0 <= price.units
    &&& 0 <= p.entry.units
    &&& 0 <= broker.pending[i]->0.decision_mid.units
    &&& 0 <= c.fee_bps.units
    &&& q * price.units <= i64::MAX * SCALE
    &&& q * p.entry.units <= i64::MAX * SCALE
    &&& q * broker.pending[i]->0.decision_mid.units <= i64::MAX * SCALE
    &&& q * price.units * c.fee_bps.units <= i64::MAX * SCALE * SCALE
}

/// The parts of a fill.
proof fn lemma_fill(
    broker: BrokerView<Fixed>,
    i: int,
    e: EventView<Fixed>,
    books: Seq<BookView<Fixed>>,
    c: Config<Fixed>,
) -> (r: (Fixed, Fixed))
    requires
        0 <= i < 2,
        broker.positions.len() == 2,
        broker.pending.len() == 2,
        broker.per_symbol.len() == 2,
        broker.position_history.len() == 2,
        is_ordinary(broker, i),
        !broker.traded(i, e, books, c).2,
        broker.traded(i, e, books, c).1.len() > 0,
        broker.traded(i, e, books, c).1[0].action == "fill"@,
    ensures
        ({
            let (after, rows, _) = broker.traded(i, e, books, c);
            let o = broker.pending[i]->0;
            let (q, p) = r;
            &&& q.units > 0
            &&& rows[0].price == p
            &&& rows[0].qty == o.side.spec_times(q)
            &&& rows[0].fee == fee_of(q, p, c)
            &&& after.cash == if o.reduce {
                broker.cash.spec_minus(rows[0].fee).spec_plus(broker.realized_by(i, q, p))
            } else {
                broker.cash.spec_minus(rows[0].fee)
            }
            &&& after.realized == if o.reduce {
                broker.realized.spec_plus(broker.realized_by(i, q, p))
            } else {
                broker.realized
            }
            &&& after.fees == broker.fees.spec_plus(rows[0].fee)
            &&& after.turnover == broker.turnover.spec_plus(q.spec_times(p))
            &&& after.slippage == broker.slippage.spec_plus(
                o.side.spec_times(p.spec_minus(o.decision_mid)).spec_times(q),
            )
            &&& after.positions[i] == broker.position_after(
                i,
                o,
                q,
                p,
                books[i].instrument->0,
                e.recv_ns,
                c,
            )
            &&& after.position_history[i] == broker.position_history[i].push(
                (e.utc_ns, after.positions[i].qty),
            )
        }),
{
    reveal_strlit("fill");
    reveal_strlit("cancel");
    assert("fill"@.len() == 4 && "cancel"@.len() == 6);
    let o = broker.pending[i]->0;
    let fills = broker.fills(i, o.side, books[i], o.qty);
    let q = total(fill_sizes(fills));
    let p = total(fill_values(fills)).spec_over(q);
    (q, p)
}

/// A fill moves what the account is worth, with the position valued at the price of the fill, by the
/// fee alone, to the unit of one rounding, and exactly where it closes the position. So a long that is
/// closed above its entry, or a short below it, realizes a gain, and the other way round a loss. An
/// entry realizes nothing.
pub proof fn law_fills_cost_the_fee_alone(
    broker: BrokerView<Fixed>,
    i: int,
    e: EventView<Fixed>,
    books: Seq<BookView<Fixed>>,
    c: Config<Fixed>,
    before: int,
    behind: int,
)
    requires
        0 <= i < 2,
        broker.positions.len() == 2,
        broker.pending.len() == 2,
        broker.per_symbol.len() == 2,
        broker.position_history.len() == 2,
        is_ordinary(broker, i),
        !broker.traded(i, e, books, c).2,
        broker.traded(i, e, books, c).1.len() > 0,
        broker.traded(i, e, books, c).1[0].action == "fill"@,
        ({
            let (after, rows, _) = broker.traded(i, e, books, c);
            let (p, q) = (broker.positions[i], after.positions[i]);
            let price = rows[0].price.units;
            &&& fill_fits(broker, i, rows[0].qty, rows[0].price, c)
            &&& q.qty.units == p.qty.units + rows[0].qty.units
            &&& cuts(before, p.qty.units * (price - p.entry.units), SCALE as int)
            &&& cuts(behind, q.qty.units * (price - q.entry.units), SCALE as int)
        }),
    ensures
        ({
            let (after, rows, _) = broker.traded(i, e, books, c);
            let (p, q) = (broker.positions[i], after.positions[i]);
            let price = rows[0].price.units;
            let got = after.realized.spec_minus(broker.realized);
            &&& after.cash == broker.cash.spec_minus(rows[0].fee).spec_plus(got)
            &&& -1 <= got.units + behind - before <= 1
            &&& q.qty.units == 0 ==> got.units == before
            &&& p.qty.units > 0 && price >= p.entry.units ==> got.units >= 0
            &&& p.qty.units > 0 && price <= p.entry.units ==> got.units <= 0
            &&& p.qty.units < 0 && price <= p.entry.units ==> got.units >= 0
            &&& p.qty.units < 0 && price >= p.entry.units ==> got.units <= 0
            &&& p.qty.units == 0 ==> got.units == 0
        }),
{
    let (q, p) = lemma_fill(broker, i, e, books, c);
    let (after, rows, _) = broker.traded(i, e, books, c);
    let o = broker.pending[i]->0;
    let old = broker.positions[i];
    lemma_side(o.side, q);
    if o.reduce {
        let sign = old.qty.spec_sign();
        let d = p.spec_minus(old.entry);
        assert(d.units == p.units - old.entry.units);
        lemma_signed(sign, q);
        let signed = q.spec_times(sign);
        assert(abs(signed.units * d.units) <= i64::MAX * SCALE) by (nonlinear_arith)
            requires
                abs(signed.units as int) == q.units,
                d.units == p.units - old.entry.units,
                0 <= p.units,
                0 <= old.entry.units,
                q.units * p.units <= i64::MAX * SCALE,
                q.units * old.entry.units <= i64::MAX * SCALE,
                q.units > 0,
        ;
        lemma_product(signed, d);
        let got = broker.realized_by(i, q, p);
        assert(after.realized.spec_minus(broker.realized) == got);
        let new = after.positions[i];
        let x = old.qty.units * (p.units - old.entry.units);
        let y = new.qty.units * (p.units - old.entry.units);
        let z = signed.units * d.units;
        assert(new.qty.units == old.qty.units - signed.units);
        assert(x == y + z) by (nonlinear_arith)
            requires
                x == old.qty.units * (p.units - old.entry.units),
                y == new.qty.units * (p.units - old.entry.units),
                z == signed.units * d.units,
                d.units == p.units - old.entry.units,
                new.qty.units == old.qty.units - signed.units,
        ;
        if new.qty.units == 0 {
            assert(y == 0) by (nonlinear_arith)
                requires
                    y == new.qty.units * (p.units - old.entry.units),
                    new.qty.units == 0,
            ;
            assert(behind == 0) by {
                assert(new.qty.units * (p.units - new.entry.units) == 0) by (nonlinear_arith)
                    requires
                        new.qty.units == 0,
                ;
            }
            lemma_cuts_agree(got.units as int, before, x, SCALE as int);
        } else {
            assert(new.entry == old.entry);
        }
        assert((signed.units > 0 && d.units >= 0 ==> z >= 0) && (signed.units > 0 && d.units <= 0
            ==> z <= 0) && (signed.units < 0 && d.units <= 0 ==> z >= 0) && (signed.units < 0
            && d.units >= 0 ==> z <= 0)) by (nonlinear_arith)
            requires
                z == signed.units * d.units,
        ;
    } else {
        assert(old.qty.units * (p.units - old.entry.units) == 0) by (nonlinear_arith)
            requires
                old.qty.units == 0,
        ;
        assert(before == 0);
        let new = after.positions[i];
        assert(new.entry == p);
        assert(new.qty.units * (p.units - new.entry.units) == 0) by (nonlinear_arith)
            requires
                new.entry.units == p.units,
        ;
        assert(behind == 0);
        assert(broker.cash.spec_minus(rows[0].fee).spec_plus(Fixed { units: 0 })
            == broker.cash.spec_minus(rows[0].fee));
    }
}

/// An order of one side has the sign of that side.
proof fn lemma_side(side: Fixed, q: Fixed)
    requires
        side.units == SCALE || side.units == -SCALE,
        q.units > 0,
    ensures
        side.spec_times(q).units == if side.units > 0 {
            q.units as int
        } else {
            -q.units
        },
{
    lemma_signed(side, q);
}

/// What a fill says of itself: its fee is the share of its value that the configuration names in basis
/// points, its value is what the turnover grows by, and the slippage grows by what the price is worse
/// than the mid at the decision. A buy adds to the position and a sell takes from it, the history notes
/// what is held from the time of the event on, and a new position is due to be closed one horizon
/// later.
pub proof fn law_fills_are_accounted_for(
    broker: BrokerView<Fixed>,
    i: int,
    e: EventView<Fixed>,
    books: Seq<BookView<Fixed>>,
    c: Config<Fixed>,
)
    requires
        0 <= i < 2,
        broker.positions.len() == 2,
        broker.pending.len() == 2,
        broker.per_symbol.len() == 2,
        broker.position_history.len() == 2,
        is_ordinary(broker, i),
        c.fits(e.recv_ns),
        c.horizon_ms == 1000,
        !broker.traded(i, e, books, c).2,
        broker.traded(i, e, books, c).1.len() > 0,
        broker.traded(i, e, books, c).1[0].action == "fill"@,
        ({
            let row = broker.traded(i, e, books, c).1[0];
            fill_fits(broker, i, row.qty, row.price, c)
        }),
    ensures
        ({
            let (after, rows, _) = broker.traded(i, e, books, c);
            let o = broker.pending[i]->0;
            let row = rows[0];
            let q = abs(row.qty.units as int);
            let value = after.turnover.spec_minus(broker.turnover).units as int;
            let slip = after.slippage.spec_minus(broker.slippage).units as int;
            let new = after.positions[i];
            let sum = broker.positions[i].qty.units + row.qty.units;
            &&& q > 0
            &&& row.qty.units > 0 <==> o.side.units > 0
            &&& row.seq == e.seq
            &&& row.recv_ns == e.recv_ns
            &&& row.symbol == c.names()[i]
            &&& after.fees == broker.fees.spec_plus(row.fee)
            &&& row.fee.units >= 0
            &&& row.fee.units * 10_000 * SCALE * SCALE <= q * row.price.units * c.fee_bps.units < (
            row.fee.units + 1) * 10_000 * SCALE * SCALE + SCALE * c.fee_bps.units
            &&& cuts(value, q * row.price.units, SCALE as int)
            &&& cuts(
                slip,
                row.qty.units * (row.price.units - o.decision_mid.units),
                SCALE as int,
            )
            &&& new.qty.units == sum || (new.qty.units == 0 && o.reduce)
            &&& o.reduce && new.qty.units != 0 ==> new.entry == broker.positions[i].entry
                && new.exit_due_ns == broker.positions[i].exit_due_ns
            &&& !o.reduce ==> new.entry == row.price && new.exit_due_ns == e.recv_ns + 1_000_000_000
            &&& after.position_history[i].len() == broker.position_history[i].len() + 1
            &&& after.position_history[i].last() == (e.utc_ns, new.qty)
            &&& was_held(after.position_history[i], e.utc_ns, new.qty)
        }),
{
    let (q, p) = lemma_fill(broker, i, e, books, c);
    let (after, rows, _) = broker.traded(i, e, books, c);
    let o = broker.pending[i]->0;
    lemma_side(o.side, q);
    let b = c.fee_bps;
    assert(abs(q.units * p.units) == q.units * p.units) by (nonlinear_arith)
        requires
            q.units > 0,
            p.units >= 0,
    ;
    lemma_product(q, p);
    assert(after.turnover.spec_minus(broker.turnover) == q.spec_times(p));
    lemma_product_of_three(q, p, b);
    let v = q.spec_times(p).spec_times(b);
    let w = Fixed::spec_from_i64(10_000);
    assert(w.units == 10_000 * SCALE);
    assert(abs(v.units * SCALE) <= i64::MAX * w.units) by (nonlinear_arith)
        requires
            v.units >= 0,
            v.units <= i64::MAX,
            w.units == 10_000 * SCALE,
            SCALE == 1_000_000_000,
    ;
    lemma_quotient(v, w);
    let fee = rows[0].fee.units as int;
    let exact = q.units * p.units * b.units;
    assert(v.units * SCALE >= 0);
    assert(fee * 10_000 <= v.units < (fee + 1) * 10_000);
    assert(fee * 10_000 * SCALE * SCALE <= exact < (fee + 1) * 10_000 * SCALE * SCALE + SCALE
        * b.units) by (nonlinear_arith)
        requires
            fee * 10_000 <= v.units < (fee + 1) * 10_000,
            v.units * SCALE * SCALE <= exact < (v.units + 1) * SCALE * SCALE + SCALE * b.units,
            SCALE == 1_000_000_000,
    ;
    let d = p.spec_minus(o.decision_mid);
    assert(d.units == p.units - o.decision_mid.units);
    lemma_signed(o.side, d);
    let away = o.side.spec_times(d);
    assert(away.units * q.units == rows[0].qty.units * d.units) by (nonlinear_arith)
        requires
            (away.units == d.units && rows[0].qty.units == q.units) || (away.units == -d.units
                && rows[0].qty.units == -q.units),
    ;
    assert(abs(away.units * q.units) <= i64::MAX * SCALE) by (nonlinear_arith)
        requires
            abs(away.units as int) == abs(d.units as int),
            d.units == p.units - o.decision_mid.units,
            0 <= p.units,
            0 <= o.decision_mid.units,
            q.units > 0,
            q.units * p.units <= i64::MAX * SCALE,
            q.units * o.decision_mid.units <= i64::MAX * SCALE,
    ;
    lemma_product(away, q);
    assert(after.slippage.spec_minus(broker.slippage) == away.spec_times(q));
    let history = after.position_history[i];
    assert(history[history.len() - 1].0 <= e.utc_ns);
}

/// A settlement is refused exactly where its mark price is not above zero, and then nothing changes.
pub proof fn law_settlements_need_a_price(
    broker: BrokerView<Fixed>,
    e: EventView<Fixed>,
    books: Seq<BookView<Fixed>>,
    c: Config<Fixed>,
    updated: Option<usize>,
)
    ensures
        broker.informed(e, books, c, updated).1 is Err <==> e.kind is Funding
            && e.kind->Funding_mark.units <= 0,
        broker.informed(e, books, c, updated).1 is Err ==> broker.informed(
            e,
            books,
            c,
            updated,
        ).0 == broker,
{
}

/// A fill concerns its own asset: the other asset keeps its position, order, history and results, no
/// other side of a book loses anything, and what the account pays, trades, slips and realizes counts for
/// the asset too.
pub proof fn law_fills_concern_their_own_asset(
    broker: BrokerView<Fixed>,
    i: int,
    e: EventView<Fixed>,
    books: Seq<BookView<Fixed>>,
    c: Config<Fixed>,
    k: int,
)
    requires
        0 <= i < 2,
        broker.positions.len() == 2,
        broker.pending.len() == 2,
        broker.per_symbol.len() == 2,
        broker.position_history.len() == 2,
        broker.consumed.len() == 4,
        0 <= k < 4,
        is_ordinary(broker, i),
        !broker.traded(i, e, books, c).2,
        broker.traded(i, e, books, c).1.len() > 0,
        broker.traded(i, e, books, c).1[0].action == "fill"@,
    ensures
        ({
            let after = broker.traded(i, e, books, c).0;
            let (was, is) = (broker.per_symbol[i], after.per_symbol[i]);
            let other = 1 - i;
            &&& after.positions[other] == broker.positions[other]
            &&& after.pending[other] == broker.pending[other]
            &&& after.position_history[other] == broker.position_history[other]
            &&& after.per_symbol[other] == broker.per_symbol[other]
            &&& k != 2 * i + (if broker.pending[i]->0.side.units > 0 {
                1int
            } else {
                0
            }) ==> after.consumed[k] == broker.consumed[k]
            &&& is.fees.spec_minus(was.fees) == after.fees.spec_minus(broker.fees)
            &&& is.turnover.spec_minus(was.turnover) == after.turnover.spec_minus(broker.turnover)
            &&& is.slippage.spec_minus(was.slippage) == after.slippage.spec_minus(broker.slippage)
            &&& is.realized.spec_minus(was.realized) == after.realized.spec_minus(broker.realized)
            &&& is.fills == was.fills.wrapping_add(1)
            &&& is.funding == was.funding
            &&& is.rejected == was.rejected
            &&& after.funding == broker.funding
            &&& after.rejected == broker.rejected
        }),
{
    let (q, p) = lemma_fill(broker, i, e, books, c);
    let after = broker.traded(i, e, books, c).0;
    let o = broker.pending[i]->0;
    let slip = o.side.spec_times(p.spec_minus(o.decision_mid)).spec_times(q);
    reveal_strlit("fill");
    reveal_strlit("cancel");
    assert("fill"@.len() == 4 && "cancel"@.len() == 6);
    let (was, is) = (broker.per_symbol[i], after.per_symbol[i]);
    lemma_sums_differ(was.fees, broker.fees, fee_of(q, p, c));
    lemma_sums_differ(was.turnover, broker.turnover, q.spec_times(p));
    lemma_sums_differ(was.slippage, broker.slippage, slip);
    lemma_sums_differ(was.realized, broker.realized, broker.realized_by(i, q, p));
}

proof fn lemma_sums_differ(a: Fixed, b: Fixed, x: Fixed)
    ensures
        a.spec_plus(x).spec_minus(a) == x,
        b.spec_plus(x).spec_minus(b) == x,
        a.spec_minus(a) == b.spec_minus(b),
{
}

/// What was taken of a book is forgotten where the venue displays it anew: all of it with a
/// disconnection, that of an asset with its snapshot, and with an update that moved the book on what was
/// taken at the prices that it names, side by side. Nothing else is forgotten.
pub proof fn law_displays_restore_what_was_taken<R: Real>(
    broker: BrokerView<R>,
    e: EventView<R>,
    books: Seq<BookView<R>>,
    c: Config<R>,
    updated: Option<usize>,
    i: int,
    k: i64,
)
    requires
        broker.consumed.len() == 4,
        0 <= i < 2,
        e.kind.symbol() is Some ==> place_of(c.names(), e.kind.symbol()->0) == Some(i),
        broker.informed(e, books, c, updated).1 is Ok,
    ensures
        ({
            let was = broker.consumed;
            let is = broker.informed(e, books, c, updated).0.consumed;
            let j = 1 - i;
            &&& is.len() == 4
            &&& e.kind is Disconnect ==> forall|n: int|
                0 <= n < 4 ==> #[trigger] is[n] == Map::<i64, R>::empty()
            &&& !(e.kind is Disconnect) ==> is[2 * j] == was[2 * j] && is[2 * j + 1] == was[2 * j
                + 1]
            &&& e.kind is Snapshot ==> is[2 * i] == Map::<i64, R>::empty() && is[2 * i + 1]
                == Map::<i64, R>::empty()
            &&& e.kind matches KindView::Depth { bids, asks, .. } ==> if updated == Some(i as usize)
                && books[i].instrument is Some {
                let tick = books[i].instrument->0.tick;
                &&& is[2 * i].contains_key(k) <==> was[2 * i].contains_key(k) && !names_price(
                    bids,
                    tick,
                    k,
                )
                &&& is[2 * i + 1].contains_key(k) <==> was[2 * i + 1].contains_key(k)
                    && !names_price(asks, tick, k)
                &&& is[2 * i].contains_key(k) ==> is[2 * i][k] == was[2 * i][k]
                &&& is[2 * i + 1].contains_key(k) ==> is[2 * i + 1][k] == was[2 * i + 1][k]
            } else {
                is == was
            }
            &&& !(e.kind is Disconnect || e.kind is Snapshot || e.kind is Depth) ==> is == was
        }),
{
    if e.kind is Depth && books[i].instrument is Some {
        let tick = books[i].instrument->0.tick;
        let (bids, asks) = (e.kind->Depth_bids, e.kind->Depth_asks);
        law_only_displayed_prices_are_restored(broker.consumed[2 * i], bids, tick, k);
        law_only_displayed_prices_are_restored(broker.consumed[2 * i + 1], asks, tick, k);
    }
}

/// Whether one of a list of levels names a price, counted in ticks.
pub open spec fn names_price<R: Real>(levels: Seq<[R; 2]>, tick: R, k: i64) -> bool {
    exists|j: int| 0 <= j < levels.len() && price_key(#[trigger] levels[j][0], tick) == k
}

} // verus!
