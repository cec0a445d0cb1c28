//! What decimal numbers of fixed scale compute, in whole units.
use crate::fixed::{abs, quotient_of, Fixed, SCALE};
use crate::number::Real;
use vstd::prelude::*;

verus! {

/// Whether a number is another, cut off toward zero to a multiple of the divisor.
pub open spec fn cuts(cut: int, x: int, divisor: int) -> bool {
    if x >= 0 {
        0 <= x - cut * divisor < divisor && cut >= 0
    } else {
        0 <= cut * divisor - x < divisor && cut <= 0
    }
}

/// Cutting off is division toward zero.
pub proof fn lemma_cut(x: int, divisor: int)
    requires
        divisor > 0,
    ensures
        cuts(quotient_of(x, divisor), x, divisor),
{
    let n = abs(x) / divisor;
    assert(n >= 0 && 0 <= abs(x) - n * divisor < divisor) by (nonlinear_arith)
        requires
            n == abs(x) / divisor,
            divisor > 0,
            abs(x) >= 0,
    ;
    assert((-n) * divisor == -(n * divisor)) by (nonlinear_arith);
}

/// There is one way to cut off.
pub proof fn lemma_cuts_agree(a: int, b: int, x: int, divisor: int)
    requires
        divisor > 0,
        cuts(a, x, divisor),
        cuts(b, x, divisor),
    ensures
        a == b,
{
    assert(a == b) by (nonlinear_arith)
        requires
            divisor > 0,
            -divisor < a * divisor - b * divisor < divisor,
    ;
}

/// A product in range is the product of the units, cut off.
pub proof fn lemma_product(a: Fixed, b: Fixed)
    requires
        abs(a.units * b.units) <= i64::MAX * SCALE,
    ensures
        cuts(a.spec_times(b).units as int, a.units * b.units, SCALE as int),
{
    let x = a.units * b.units;
    lemma_cut(x, SCALE as int);
    let q = quotient_of(x, SCALE as int);
    assert(abs(q) <= i64::MAX) by (nonlinear_arith)
        requires
            abs(x) <= i64::MAX * SCALE,
            cuts(q, x, SCALE as int),
            SCALE == 1_000_000_000,
    ;
}

/// A quotient in range is the quotient of the units, cut off.
pub proof fn lemma_quotient(a: Fixed, b: Fixed)
    requires
        b.units > 0,
        abs(a.units * SCALE) <= i64::MAX * b.units,
    ensures
        cuts(a.spec_over(b).units as int, a.units * SCALE, b.units as int),
{
    let x = a.units * SCALE;
    let d = b.units as int;
    lemma_cut(x, d);
    let q = quotient_of(x, d);
    assert(abs(q) <= i64::MAX) by (nonlinear_arith)
        requires
            abs(x) <= i64::MAX * d,
            cuts(q, x, d),
            d > 0,
    ;
}

/// A number times one with a sign is the number with that sign.
pub proof fn lemma_signed(side: Fixed, x: Fixed)
    requires
        side.units == SCALE || side.units == -SCALE,
        x.units > i64::MIN,
    ensures
        side.spec_times(x).units == if side.units > 0 {
            x.units as int
        } else {
            -x.units
        },
        x.spec_times(side).units == side.spec_times(x).units,
{
    let s = side.units as int;
    let n = x.units as int;
    let exact = if s > 0 {
        n
    } else {
        -n
    };
    assert(s * n == exact * SCALE && n * s == exact * SCALE) by (nonlinear_arith)
        requires
            SCALE == 1_000_000_000,
            (s == SCALE && exact == n) || (s == -SCALE && exact == -n),
    ;
    lemma_cut(s * n, SCALE as int);
    lemma_cuts_agree(quotient_of(s * n, SCALE as int), exact, s * n, SCALE as int);
}

} // verus!
