//! What the features tell, in whole units.
use crate::book::BookView;
use crate::features::HistoryView;
use crate::fixed::{abs, Fixed, SCALE};
use crate::meaning::arithmetic::{cuts, lemma_cuts_agree, lemma_product, lemma_quotient};
use crate::number::Real;
use vstd::prelude::*;

verus! {

/// Whether a top of a book is two-sided, uncrossed, and small enough for its values to be in range.
pub open spec fn is_plain(b: Fixed, bq: Fixed, a: Fixed, aq: Fixed) -> bool {
    &&& SCALE <= b.units < a.units <= i64::MAX / 4
    &&& 0 < bq.units <= i64::MAX / 4
    &&& 0 < aq.units <= i64::MAX / 4
    &&& a.units * bq.units <= (i64::MAX / 4) * SCALE
    &&& a.units * aq.units <= (i64::MAX / 4) * SCALE
}

/// Halfway between two prices, cut off.
pub proof fn lemma_middle(b: Fixed, a: Fixed)
    requires
        0 <= b.units <= i64::MAX / 4,
        0 <= a.units <= i64::MAX / 4,
    ensures
        ({
            let mid = b.spec_plus(a).spec_over(Fixed::spec_from_i64(2)).units;
            2 * mid <= b.units + a.units < 2 * mid + 2
        }),
{
    let sum = b.spec_plus(a);
    let two = Fixed::spec_from_i64(2);
    assert(sum.units == b.units + a.units && two.units == 2 * SCALE);
    assert(abs(sum.units * SCALE) <= i64::MAX * two.units) by (nonlinear_arith)
        requires
            0 <= sum.units <= i64::MAX,
            two.units == 2 * SCALE,
            SCALE == 1_000_000_000,
    ;
    lemma_quotient(sum, two);
}

/// Ten thousand times a number.
pub proof fn lemma_basis_points(x: Fixed)
    requires
        abs(x.units as int) <= i64::MAX / 10_000,
    ensures
        x.spec_times(Fixed::spec_from_i64(10_000)).units == x.units * 10_000,
        Fixed::spec_from_i64(10_000).spec_times(x).units == x.units * 10_000,
{
    let w = Fixed::spec_from_i64(10_000);
    let n = x.units as int;
    assert(w.units == 10_000 * SCALE);
    assert(n * (10_000 * SCALE) == (n * 10_000) * SCALE && (10_000 * SCALE) * n == (n * 10_000)
        * SCALE) by (nonlinear_arith);
    assert(abs(n * 10_000 * SCALE) <= i64::MAX * SCALE) by (nonlinear_arith)
        requires
            abs(n) <= i64::MAX / 10_000,
            SCALE == 1_000_000_000,
    ;
    lemma_product(x, w);
    lemma_product(w, x);
    lemma_cuts_agree(
        x.spec_times(w).units as int,
        n * 10_000,
        n * 10_000 * SCALE,
        SCALE as int,
    );
    lemma_cuts_agree(
        w.spec_times(x).units as int,
        n * 10_000,
        n * 10_000 * SCALE,
        SCALE as int,
    );
}

/// The spread feature is above zero, and is the distance from the best bid to the best ask as a share of
/// the price halfway between them, in basis points.
pub proof fn law_spread_is_what_a_round_trip_crosses(
    h: HistoryView<Fixed>,
    now: u64,
    book: BookView<Fixed>,
    b: Fixed,
    bq: Fixed,
    a: Fixed,
    aq: Fixed,
)
    requires
        book.top() == Some((b, bq, a, aq)),
        h.vector(now, book) is Some,
        is_plain(b, bq, a, aq),
    ensures
        ({
            let wide = h.vector(now, book)->0[0].units as int;
            let mid = (a.units + b.units) / 2;
            &&& wide >= 0
            &&& wide % 10_000 == 0
            &&& wide * mid <= 10_000 * (a.units - b.units) * SCALE < (wide + 10_000) * mid
        }),
{
    let mid = b.spec_plus(a).spec_over(Fixed::spec_from_i64(2));
    lemma_middle(b, a);
    let gap = a.spec_minus(b);
    let (g, c) = (gap.units as int, mid.units as int);
    assert(g == a.units - b.units);
    assert(c == (a.units + b.units) / 2);
    assert(0 <= g * SCALE && abs(g * SCALE) <= i64::MAX * c) by (nonlinear_arith)
        requires
            0 <= g <= i64::MAX / 4,
            c >= SCALE,
            SCALE == 1_000_000_000,
    ;
    lemma_quotient(gap, mid);
    let r = gap.spec_over(mid).units as int;
    assert(r * c <= g * SCALE < r * c + c) by (nonlinear_arith)
        requires
            cuts(r, g * SCALE, c),
            g * SCALE >= 0,
    ;
    assert(r <= 2 * SCALE) by (nonlinear_arith)
        requires
            r * c <= g * SCALE,
            g <= 2 * c,
            c >= SCALE,
            SCALE == 1_000_000_000,
    ;
    lemma_basis_points(gap.spec_over(mid));
    let wide = h.vector(now, book)->0[0].units as int;
    assert(wide == r * 10_000);
    assert(wide * c <= 10_000 * g * SCALE < (wide + 10_000) * c) by (nonlinear_arith)
        requires
            r * c <= g * SCALE < r * c + c,
            wide == r * 10_000,
            SCALE == 1_000_000_000,
    ;
}

/// The microprice of a top, in units, as it is cut off.
proof fn lemma_micro(b: Fixed, bq: Fixed, a: Fixed, aq: Fixed) -> (micro: Fixed)
    requires
        is_plain(b, bq, a, aq),
    ensures
        micro == a.spec_times(bq).spec_plus(b.spec_times(aq)).spec_over(bq.spec_plus(aq)),
        ({
            let exact = a.units * bq.units + b.units * aq.units;
            let q = bq.units + aq.units;
            &&& micro.units * q <= exact
            &&& exact < (micro.units + 1) * q + 2 * SCALE
            &&& 0 <= micro.units <= a.units
        }),
{
    let (x, y) = (a.spec_times(bq), b.spec_times(aq));
    assert(0 <= a.units * bq.units && 0 <= b.units * aq.units <= a.units * aq.units)
        by (nonlinear_arith)
        requires
            0 < b.units <= a.units,
            0 < bq.units,
            0 < aq.units,
    ;
    lemma_product(a, bq);
    lemma_product(b, aq);
    let sum = x.spec_plus(y);
    let q = bq.spec_plus(aq);
    assert(x.units <= i64::MAX / 4 && y.units <= i64::MAX / 4);
    assert(sum.units == x.units + y.units && q.units == bq.units + aq.units);
    let exact = a.units * bq.units + b.units * aq.units;
    assert(sum.units * SCALE <= exact < sum.units * SCALE + 2 * SCALE);
    assert(exact <= a.units * q.units) by (nonlinear_arith)
        requires
            exact == a.units * bq.units + b.units * aq.units,
            q.units == bq.units + aq.units,
            b.units <= a.units,
            0 < aq.units,
    ;
    assert(a.units * q.units <= i64::MAX * q.units) by (nonlinear_arith)
        requires
            a.units <= i64::MAX,
            q.units > 0,
    ;
    lemma_quotient(sum, q);
    let micro = sum.spec_over(q);
    let (m, d) = (micro.units as int, q.units as int);
    assert((m + 1) * d == m * d + d) by (nonlinear_arith);
    assert(m <= a.units) by (nonlinear_arith)
        requires
            m * d <= a.units * d,
            d > 0,
    ;
    micro
}

/// The microprice feature leans to the side that displays less: it is above zero where the best bid
/// displays clearly more than the best ask, and below zero where it displays clearly less. It is never
/// above the spread feature, since the microprice is never above the ask.
pub proof fn law_microprice_leans_to_the_thinner_side(
    h: HistoryView<Fixed>,
    now: u64,
    book: BookView<Fixed>,
    b: Fixed,
    bq: Fixed,
    a: Fixed,
    aq: Fixed,
)
    requires
        book.top() == Some((b, bq, a, aq)),
        h.vector(now, book) is Some,
        is_plain(b, bq, a, aq),
    ensures
        ({
            let lean = h.vector(now, book)->0[1].units;
            let spread = a.units - b.units;
            let q = bq.units + aq.units;
            &&& spread * (bq.units - aq.units) * SCALE >= 4 * SCALE * SCALE + 2 * q * (SCALE
                + a.units) ==> lean > 0
            &&& spread * (aq.units - bq.units) >= 2 * q ==> lean < 0
            &&& lean <= h.vector(now, book)->0[0].units
        }),
{
    law_spread_is_what_a_round_trip_crosses(h, now, book, b, bq, a, aq);
    let mid = b.spec_plus(a).spec_over(Fixed::spec_from_i64(2));
    lemma_middle(b, a);
    let micro = lemma_micro(b, bq, a, aq);
    let (m, c, q) = (micro.units as int, mid.units as int, bq.units + aq.units);
    assert(c >= SCALE);
    assert(abs(m * SCALE) <= i64::MAX * c) by (nonlinear_arith)
        requires
            0 <= m <= i64::MAX / 4,
            c >= SCALE,
            SCALE == 1_000_000_000,
    ;
    lemma_quotient(micro, mid);
    let r = micro.spec_over(mid);
    let one = Fixed::spec_from_i64(1);
    assert(one.units == SCALE);
    assert(m * SCALE >= 0);
    let ratio = r.units as int;
    assert(ratio * c <= m * SCALE < ratio * c + c) by (nonlinear_arith)
        requires
            cuts(ratio, m * SCALE, c),
            m * SCALE >= 0,
    ;
    assert(m <= 2 * c + 1);
    assert(ratio <= 3 * SCALE) by (nonlinear_arith)
        requires
            ratio * c <= m * SCALE,
            m <= 2 * c + 1,
            c >= SCALE,
            SCALE == 1_000_000_000,
    ;
    let lean = r.spec_minus(one);
    assert(lean.units == ratio - SCALE);
    lemma_basis_points(lean);
    let exact = a.units * bq.units + b.units * aq.units;
    let spread = a.units - b.units;
    let wide = h.vector(now, book)->0[0].units as int;
    let above = ratio - SCALE;
    assert(above * c <= (a.units - b.units) * SCALE) by (nonlinear_arith)
        requires
            above == ratio - SCALE,
            ratio * c <= m * SCALE,
            m <= a.units,
            c >= b.units,
            SCALE == 1_000_000_000,
    ;
    assert(10_000 * above < wide + 10_000) by (nonlinear_arith)
        requires
            above * c <= (a.units - b.units) * SCALE,
            10_000 * (a.units - b.units) * SCALE < (wide + 10_000) * c,
            c > 0,
    ;
    assert(lean.units * 10_000 <= wide) by {
        assert(wide % 10_000 == 0);
    }
    if spread * (bq.units - aq.units) * SCALE >= 4 * SCALE * SCALE + 2 * q * (SCALE + a.units) {
        assert(2 * exact == (a.units + b.units) * q + spread * (bq.units - aq.units))
            by (nonlinear_arith)
            requires
                exact == a.units * bq.units + b.units * aq.units,
                spread == a.units - b.units,
                q == bq.units + aq.units,
        ;
        assert((m - c) * SCALE >= c) by (nonlinear_arith)
            requires
                2 * exact == (a.units + b.units) * q + spread * (bq.units - aq.units),
                exact < (m + 1) * q + 2 * SCALE,
                2 * c <= a.units + b.units,
                c <= a.units,
                spread * (bq.units - aq.units) * SCALE >= 4 * SCALE * SCALE + 2 * q * (SCALE
                    + a.units),
                q > 0,
                SCALE == 1_000_000_000,
        {
            assert(2 * (m - c) * q * SCALE >= 2 * q * a.units) by {
                assert(2 * ((m + 1) * q + 2 * SCALE) > 2 * c * q + spread * (bq.units - aq.units));
            }
        }
        assert(ratio > SCALE) by (nonlinear_arith)
            requires
                (m - c) * SCALE >= c,
                m * SCALE < ratio * c + c,
                c > 0,
        ;
    }
    if spread * (aq.units - bq.units) >= 2 * q {
        assert(2 * exact == (a.units + b.units) * q - spread * (aq.units - bq.units))
            by (nonlinear_arith)
            requires
                exact == a.units * bq.units + b.units * aq.units,
                spread == a.units - b.units,
                q == bq.units + aq.units,
        ;
        assert(m < c) by (nonlinear_arith)
            requires
                2 * exact == (a.units + b.units) * q - spread * (aq.units - bq.units),
                m * q <= exact,
                a.units + b.units < 2 * c + 2,
                spread * (aq.units - bq.units) >= 2 * q,
                q > 0,
        ;
        assert(ratio < SCALE) by (nonlinear_arith)
            requires
                m < c,
                ratio * c <= m * SCALE,
                c > 0,
                SCALE == 1_000_000_000,
        ;
    }
}

/// Whether a price is that of a top at which each side's price weighs by what the other side displays,
/// to the roundings.
pub open spec fn is_microprice(micro: int, b: Fixed, bq: Fixed, a: Fixed, aq: Fixed) -> bool {
    let exact = a.units * bq.units + b.units * aq.units;
    let q = bq.units + aq.units;
    micro * q <= exact < (micro + 1) * q + 2 * SCALE
}

/// The microprice feature is how far the microprice is above the price halfway between the best prices,
/// as a share of that price, in basis points.
pub proof fn law_microprice_is_a_weighted_price(
    h: HistoryView<Fixed>,
    now: u64,
    book: BookView<Fixed>,
    b: Fixed,
    bq: Fixed,
    a: Fixed,
    aq: Fixed,
) -> (micro: int)
    requires
        book.top() == Some((b, bq, a, aq)),
        h.vector(now, book) is Some,
        is_plain(b, bq, a, aq),
    ensures
        ({
            let lean = h.vector(now, book)->0[1].units as int;
            let mid = (a.units + b.units) / 2;
            &&& is_microprice(micro, b, bq, a, aq)
            &&& lean % 10_000 == 0
            &&& lean * mid <= 10_000 * (micro - mid) * SCALE < (lean + 10_000) * mid
        }),
{
    let mid = b.spec_plus(a).spec_over(Fixed::spec_from_i64(2));
    lemma_middle(b, a);
    let micro = lemma_micro(b, bq, a, aq);
    let (m, c) = (micro.units as int, mid.units as int);
    assert(c >= SCALE);
    assert(abs(m * SCALE) <= i64::MAX * c) by (nonlinear_arith)
        requires
            0 <= m <= i64::MAX / 4,
            c >= SCALE,
            SCALE == 1_000_000_000,
    ;
    lemma_quotient(micro, mid);
    let r = micro.spec_over(mid);
    let one = Fixed::spec_from_i64(1);
    assert(one.units == SCALE);
    assert(m * SCALE >= 0);
    let ratio = r.units as int;
    assert(ratio * c <= m * SCALE < ratio * c + c) by (nonlinear_arith)
        requires
            cuts(ratio, m * SCALE, c),
            m * SCALE >= 0,
    ;
    assert(m <= 2 * c + 1);
    assert(ratio <= 3 * SCALE) by (nonlinear_arith)
        requires
            ratio * c <= m * SCALE,
            m <= 2 * c + 1,
            c >= SCALE,
            SCALE == 1_000_000_000,
    ;
    let above = r.spec_minus(one);
    assert(above.units == ratio - SCALE);
    lemma_basis_points(above);
    let lean = h.vector(now, book)->0[1].units as int;
    assert(lean == 10_000 * (ratio - SCALE));
    assert(lean * c <= 10_000 * (m - c) * SCALE < (lean + 10_000) * c) by (nonlinear_arith)
        requires
            lean == 10_000 * (ratio - SCALE),
            ratio * c <= m * SCALE < ratio * c + c,
            SCALE == 1_000_000_000,
    ;
    m
}

/// The imbalance features are those of the best level, of the best five and of the best ten.
pub proof fn law_imbalances_look_one_five_and_ten_deep<R: Real>(
    h: HistoryView<R>,
    now: u64,
    book: BookView<R>,
)
    requires
        h.vector(now, book) is Some,
    ensures
        h.vector(now, book)->0.len() == 17,
        h.vector(now, book)->0[2] == book.imbalance(1),
        h.vector(now, book)->0[3] == book.imbalance(5),
        h.vector(now, book)->0[4] == book.imbalance(10),
{
}

} // verus!
