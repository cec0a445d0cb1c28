//! What the functions of decimal numbers of fixed scale compute, in whole units.
use crate::fixed::{
    abs, clamped, doubled, halved, is_root, log_near_one, odd_powers, Fixed, LOG_TERMS, SCALE,
};
use crate::number::Real;
use vstd::prelude::*;

verus! {

/// A square root is the largest number whose square is not above.
pub proof fn law_roots_are_square_roots(x: Fixed)
    requires
        x.units >= 0,
    ensures
        ({
            let r = x.spec_root().units;
            r >= 0 && r * r <= x.units * SCALE < (r + 1) * (r + 1)
        }),
{
    let n = x.units * SCALE;
    if x.units > 0 {
        lemma_root_exists(n);
        let r = choose|r: int| #[trigger] is_root(n, r);
        assert(r <= i64::MAX) by (nonlinear_arith)
            requires
                r * r <= n,
                n <= i64::MAX * SCALE,
                r >= 0,
                SCALE == 1_000_000_000,
        ;
    }
}

proof fn lemma_root_exists(x: int)
    requires
        x >= 0,
    ensures
        exists|r: int| #[trigger] is_root(x, r),
    decreases x,
{
    if x == 0 {
        assert(is_root(0, 0));
    } else {
        lemma_root_exists(x - 1);
        let r = choose|r: int| #[trigger] is_root(x - 1, r);
        assert(is_root(x, r) || is_root(x, r + 1)) by (nonlinear_arith)
            requires
                r >= 0,
                r * r <= x - 1 < (r + 1) * (r + 1),
        ;
    }
}

/// Rounding gives the whole number that is no further than a half, and rounding down the one that is
/// not above and less than one below.
pub proof fn law_roundings_give_whole_numbers(x: Fixed)
    requires
        -(i64::MAX - SCALE) <= x.units <= i64::MAX - SCALE,
    ensures
        x.spec_rounded().units as int % SCALE as int == 0,
        2 * abs(x.spec_rounded().units - x.units) <= SCALE,
        x.spec_floored().units as int % SCALE as int == 0,
        x.spec_floored().units <= x.units < x.spec_floored().units + SCALE,
        x.spec_to_i64() * SCALE <= abs(x.units as int),
        x.units >= 0 ==> x.spec_to_i64() * SCALE <= x.units < (x.spec_to_i64() + 1) * SCALE,
{
    let n = x.units as int;
    let s = SCALE as int;
    let up = (abs(n) + s / 2) / s;
    assert(up * s <= abs(n) + s / 2 < up * s + s && (up * s) % s == 0 && (-(up * s)) % s == 0)
        by (nonlinear_arith)
        requires
            up == (abs(n) + s / 2) / s,
            s == 1_000_000_000,
    ;
    let down = n / s;
    assert(down * s <= n < down * s + s && (down * s) % s == 0) by (nonlinear_arith)
        requires
            down == n / s,
            s == 1_000_000_000,
    ;
}

proof fn lemma_halvings_shift(m: int, k: int, by: int)
    requires
        m > 0,
    ensures
        halved(m, k + by) == (halved(m, k).0, halved(m, k).1 + by),
        halved(m, k).0 > 0,
        halved(m, k).0 < 2 * SCALE,
        m >= SCALE ==> halved(m, k).0 >= SCALE,
        m < 2 * SCALE ==> halved(m, k) == (m, k),
    decreases m,
{
    if m >= 2 * SCALE {
        lemma_halvings_shift(m / 2, k + 1, by);
    }
}

proof fn lemma_doublings_shift(m: int, k: int, by: int)
    requires
        0 < m < 2 * SCALE,
    ensures
        doubled(m, k + by) == (doubled(m, k).0, doubled(m, k).1 + by),
        SCALE <= doubled(m, k).0 < 2 * SCALE,
        m >= SCALE ==> doubled(m, k) == (m, k),
    decreases 2 * SCALE - m,
{
    if m < SCALE {
        lemma_doublings_shift(m * 2, k - 1, by);
    }
}

/// The logarithm of twice a number is that of the number and that of two.
pub proof fn law_logarithms_of_doubles(x: Fixed, twice: Fixed)
    requires
        0 < x.units,
        twice.units == 2 * x.units,
    ensures
        twice.spec_log().units == x.spec_log().units + 693_147_181,
{
    let n = x.units as int;
    lemma_logarithm_in_range(x);
    lemma_logarithm_in_range(twice);
    lemma_halvings_shift(n, 0, 1);
    lemma_halvings_shift(2 * n, 0, 1);
    let (h, up) = halved(n, 0);
    let (g, upper) = halved(2 * n, 0);
    lemma_doublings_shift(h, up, 1);
    lemma_doublings_shift(g, upper, 1);
    if n < SCALE {
        assert(doubled(n, 0) == doubled(2 * n, -1));
        lemma_doublings_shift(2 * n, -1, 1);
    }
}

proof fn lemma_series(t: int, square: int, j: int)
    requires
        0 <= t,
        0 <= square < SCALE,
        0 <= j,
    ensures
        odd_powers(t, square, j) >= 0,
        odd_powers(t, square, j) * (SCALE - square) <= t * SCALE,
    decreases LOG_TERMS - j,
{
    assert(t * SCALE >= 0);
    if j < LOG_TERMS {
        let next = t * square / SCALE as int;
        assert(t * square >= 0 && 0 <= next && next * SCALE <= t * square) by (nonlinear_arith)
            requires
                next == t * square / SCALE as int,
                0 <= t,
                0 <= square,
                SCALE == 1_000_000_000,
        ;
        lemma_series(next, square, j + 1);
        let d = 2 * j + 1;
        let first = t / d;
        assert(0 <= first <= t) by (nonlinear_arith)
            requires
                first == t / d,
                d >= 1,
                0 <= t,
        ;
        let rest = odd_powers(next, square, j + 1);
        assert((first + rest) * (SCALE - square) <= t * SCALE) by (nonlinear_arith)
            requires
                0 <= first <= t,
                rest * (SCALE - square) <= next * SCALE,
                next * SCALE <= t * square,
                0 <= square < SCALE,
        ;
    } else {
        assert(odd_powers(t, square, j) == 0);
    }
}

proof fn lemma_near_one(m: int)
    requires
        SCALE <= m < 2 * SCALE,
    ensures
        ({
            let d = m - SCALE;
            let l = log_near_one(m);
            &&& 0 <= l <= d
            &&& (l + 2) * (2 * SCALE + d) > 2 * d * SCALE
        }),
{
    let s = SCALE as int;
    let d = m - s;
    let y = d * s / (m + s);
    assert(0 <= y && y * (2 * s + d) <= d * s < (y + 1) * (2 * s + d) && y < s) by (nonlinear_arith)
        requires
            y == d * s / (m + s),
            d == m - s,
            0 <= d < s,
            s == 1_000_000_000,
    ;
    let square = y * y / s;
    assert(0 <= square < s && square * s <= y * y) by (nonlinear_arith)
        requires
            square == y * y / s,
            0 <= y < s,
            s == 1_000_000_000,
    ;
    lemma_series(y, square, 0);
    let sum = odd_powers(y, square, 0);
    let rest = odd_powers(y * square / s, square, 1);
    assert(0 <= y * square / s) by (nonlinear_arith)
        requires
            0 <= y,
            0 <= square,
            s == 1_000_000_000,
    ;
    lemma_series(y * square / s, square, 1);
    assert(y / 1int == y);
    assert(sum == y + rest);
    let l = 2 * sum;
    assert(l <= d) by (nonlinear_arith)
        requires
            l == 2 * sum,
            sum * (s - square) <= y * s,
            0 <= square < s,
            square * s <= y * y,
            0 <= y < s,
            y * (2 * s + d) <= d * s,
            0 <= d < s,
            s == 1_000_000_000,
    {
        if l > d {
            assert(d * (s - square) < 2 * y * s);
            assert(d * (s - square) * s < 2 * y * s * s);
            assert(d * (s - square) * s >= d * (s * s - y * y));
            assert(2 * y * s * s + y * d * s <= d * s * s);
            assert(y * d * s >= d * y * y);
        }
    }
    assert((l + 2) * (2 * s + d) > 2 * d * s) by (nonlinear_arith)
        requires
            l >= 2 * y,
            d * s < (y + 1) * (2 * s + d),
            0 <= d,
            s == 1_000_000_000,
    ;
}

proof fn lemma_logarithm_in_range(x: Fixed)
    requires
        0 < x.units,
    ensures
        ({
            let (h, up) = halved(x.units as int, 0);
            let (m, k) = doubled(h, up);
            &&& SCALE <= m < 2 * SCALE
            &&& x.spec_log().units == log_near_one(m) + k * 693_147_181
        }),
{
    let n = x.units as int;
    lemma_halvings_shift(n, 0, 0);
    let (h, up) = halved(n, 0);
    assert(pow_of_two(63) == 0x8000_0000_0000_0000 && pow_of_two(31) == 0x8000_0000) by {
        reveal_with_fuel(pow_of_two, 64);
    }
    lemma_halvings_are_few(n, 0, 63);
    lemma_doublings_shift(h, up, 0);
    assert(h * pow_of_two(31) >= SCALE);
    lemma_doublings_are_few(h, up, 31);
    let (m, k) = doubled(h, up);
    lemma_near_one(m);
    assert(clamped(log_near_one(m) + k * 693_147_181) == log_near_one(m) + k * 693_147_181);
}

proof fn lemma_halvings_are_few(m: int, k: int, most: nat)
    requires
        0 < m < pow_of_two(most),
        most >= 1,
    ensures
        k <= halved(m, k).1 <= k + most,
    decreases most,
{
    if m >= 2 * SCALE {
        if most == 1 {
            assert(pow_of_two(1) == 2 * pow_of_two(0));
        } else {
            lemma_halvings_are_few(m / 2, k + 1, (most - 1) as nat);
        }
    }
}

proof fn lemma_doublings_are_few(m: int, k: int, most: nat)
    requires
        0 < m < 2 * SCALE,
        m * pow_of_two(most) >= SCALE,
    ensures
        k - most <= doubled(m, k).1 <= k,
    decreases most,
{
    if m < SCALE {
        if most == 0 {
            assert(m * pow_of_two(0) == m) by (nonlinear_arith)
                requires
                    pow_of_two(0) == 1,
            ;
        } else {
            let fewer = pow_of_two((most - 1) as nat);
            assert((m * 2) * fewer == m * pow_of_two(most)) by (nonlinear_arith)
                requires
                    pow_of_two(most) == 2 * fewer,
            ;
            lemma_doublings_are_few(m * 2, k - 1, (most - 1) as nat);
        }
    }
}

spec fn pow_of_two(n: nat) -> int
    decreases n,
{
    if n == 0 {
        1
    } else {
        2 * pow_of_two((n - 1) as nat)
    }
}

/// The logarithm of a number from one to two is not above what the number is above one, and not below
/// twice that over the number and one more, to two units. So for a small rise it is the rise.
pub proof fn law_logarithms_of_small_rises(x: Fixed)
    requires
        SCALE <= x.units < 2 * SCALE,
    ensures
        ({
            let d = x.units - SCALE;
            let l = x.spec_log().units;
            &&& l <= d
            &&& (l + 2) * (2 * SCALE + d) > 2 * d * SCALE
        }),
{
    lemma_logarithm_in_range(x);
    lemma_halvings_shift(x.units as int, 0, 0);
    lemma_doublings_shift(x.units as int, 0, 0);
    lemma_near_one(x.units as int);
}

} // verus!
