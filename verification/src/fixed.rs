//! Decimal fixed-point numbers: the same results on every machine.
use crate::decimal::{billionths_of, parse_billionths};
use crate::number::Real;
use crate::text::chars_of;
use vstd::prelude::*;

verus! {

/// How many units make one.
pub const SCALE: i64 = 1_000_000_000;

/// The natural logarithm of two, in units.
pub const LOG_TWO: i64 = 693_147_181;

/// How many terms of its series a logarithm takes.
pub const LOG_TERMS: u32 = 12;

/// A number with nine decimal places. Addition is exact modulo the range, so that a sum does not
/// depend on its order; products and quotients round toward zero and stay within the range. A text is
/// read as the nearest such number: it is rounded to nine places, and what lies beyond the range,
/// about nine billion on either side, is read as the end of the range.
#[derive(Clone, Copy, Debug, PartialEq, Eq, Structural)]
pub struct Fixed {
    pub units: i64,
}

/// The nearest value in the range of `i64`.
pub open spec fn clamped(x: int) -> i64 {
    if x > i64::MAX {
        i64::MAX
    } else if x < i64::MIN {
        i64::MIN
    } else {
        x as i64
    }
}

fn clamp(x: i128) -> (r: i64)
    ensures
        r == clamped(x as int),
{
    if x > i64::MAX as i128 {
        i64::MAX
    } else if x < i64::MIN as i128 {
        i64::MIN
    } else {
        x as i64
    }
}

/// A count of ones, in units.
fn scaled(n: i64) -> (r: i128)
    ensures
        r == n * SCALE,
        -0x4000_0000_0000_0000_0000_0000_0000_0000 <= r <= 0x4000_0000_0000_0000_0000_0000_0000_0000,
{
    proof {
        assert(-0x8000_0000_0000_0000 * 1_000_000_000 <= n * SCALE <= 0x8000_0000_0000_0000
            * 1_000_000_000) by (nonlinear_arith)
            requires
                SCALE == 1_000_000_000,
                -0x8000_0000_0000_0000 <= n <= 0x7fff_ffff_ffff_ffff,
        ;
    }
    n as i128 * SCALE as i128
}

/// A quotient, rounded toward zero.
pub open spec fn quotient_of(a: int, b: int) -> int
    recommends
        b != 0,
{
    if (a >= 0) == (b > 0) {
        abs(a) / abs(b)
    } else {
        -(abs(a) / abs(b))
    }
}

/// The absolute value of an integer.
pub open spec fn abs(a: int) -> int {
    if a < 0 {
        -a
    } else {
        a
    }
}

fn divide(a: i128, b: i128) -> (r: i128)
    requires
        b != 0,
        -0x4000_0000_0000_0000_0000_0000_0000_0000 <= a <= 0x4000_0000_0000_0000_0000_0000_0000_0000,
        -0x1_0000_0000_0000_0000 <= b <= 0x1_0000_0000_0000_0000,
    ensures
        r == quotient_of(a as int, b as int),
{
    let p: i128 = if a < 0 {
        -a
    } else {
        a
    };
    let q: i128 = if b < 0 {
        -b
    } else {
        b
    };
    proof {
        vstd::arithmetic::div_mod::lemma_div_nonincreasing(p as int, q as int);
    }
    let d: i128 = p / q;
    if (a >= 0) == (b > 0) {
        d
    } else {
        -d
    }
}

/// A value above zero, halved until it is below two, and how often.
pub open spec fn halved(m: int, k: int) -> (int, int)
    decreases m,
{
    if m >= 2 * SCALE {
        halved(m / 2, k + 1)
    } else {
        (m, k)
    }
}

/// A value above zero, doubled until it is not below one, and how often, counted down.
pub open spec fn doubled(m: int, k: int) -> (int, int)
    decreases 2 * SCALE - m,
{
    if 0 < m < SCALE {
        doubled(m * 2, k - 1)
    } else {
        (m, k)
    }
}

/// The sum of `t / (2j + 1)` over the odd powers that remain, where `t` is the current power.
pub open spec fn odd_powers(t: int, square: int, j: int) -> int
    decreases LOG_TERMS - j,
{
    if j < 0 || j >= LOG_TERMS {
        0
    } else {
        t / (2 * j + 1) + odd_powers(t * square / SCALE as int, square, j + 1)
    }
}

/// The logarithm of a value from one to two: twice the series of `(m - 1) / (m + 1)`.
pub open spec fn log_near_one(m: int) -> int {
    let y = (m - SCALE) * SCALE / (m + SCALE);
    2 * odd_powers(y, y * y / SCALE as int, 0)
}

/// The natural logarithm, in units. What has none is taken as the least number.
pub open spec fn log_units(units: i64) -> i64 {
    if units <= 0 {
        i64::MIN
    } else {
        let (h, up) = halved(units as int, 0);
        let (m, k) = doubled(h, up);
        clamped(log_near_one(m) + k * LOG_TWO)
    }
}

/// The largest whole number whose square is not above.
pub open spec fn is_root(x: int, r: int) -> bool {
    r >= 0 && r * r <= x < (r + 1) * (r + 1)
}

/// The square root of a whole number, rounded down.
pub open spec fn root_of_whole(x: int) -> int {
    choose|r: int| #[trigger] is_root(x, r)
}

/// The square root, in units. What has none is taken as zero.
pub open spec fn root_units(units: i64) -> i64 {
    if units <= 0 {
        0
    } else {
        root_of_whole(units * SCALE) as i64
    }
}

/// A whole number of units, rounded down.
pub open spec fn floor_units(units: i64) -> i64 {
    clamped((units as int / SCALE as int) * SCALE)
}

/// A whole number of units, to the nearest, halves away from zero.
pub open spec fn round_units(units: i64) -> i64 {
    let up = (abs(units as int) + SCALE / 2) / SCALE as int * SCALE;
    if units < 0 {
        clamped(-up)
    } else {
        clamped(up)
    }
}

/// A quotient, in units. A quotient by zero is the end of the range on its side.
pub open spec fn over_units(a: i64, b: i64) -> i64 {
    if b == 0 {
        if a > 0 {
            i64::MAX
        } else if a < 0 {
            i64::MIN
        } else {
            0
        }
    } else {
        clamped(quotient_of(a * SCALE, b as int))
    }
}

fn log_series(m: i128) -> (r: i128)
    requires
        SCALE <= m < 2 * SCALE,
    ensures
        r == log_near_one(m as int),
        0 <= r <= 24 * SCALE,
{
    let s: i128 = SCALE as i128;
    proof {
        assert(0 <= (m - SCALE) * SCALE <= 1_000_000_000 * 1_000_000_000) by (nonlinear_arith)
            requires
                SCALE <= m < 2 * SCALE,
                SCALE == 1_000_000_000,
        ;
        assert(0 <= (m - SCALE) * SCALE / (m + SCALE) <= SCALE) by (nonlinear_arith)
            requires
                SCALE <= m < 2 * SCALE,
                SCALE == 1_000_000_000,
        ;
    }
    let y: i128 = (m - s) * s / (m + s);
    proof {
        assert(0 <= y * y <= 1_000_000_000 * 1_000_000_000) by (nonlinear_arith)
            requires
                0 <= y <= 1_000_000_000,
        ;
    }
    let square: i128 = y * y / s;
    let mut t: i128 = y;
    let mut sum: i128 = 0;
    let mut j: u32 = 0;
    while j < LOG_TERMS
        invariant
            j <= LOG_TERMS,
            s == SCALE,
            0 <= t <= SCALE,
            0 <= square <= SCALE,
            0 <= sum <= j * SCALE,
            sum + odd_powers(t as int, square as int, j as int) == odd_powers(
                y as int,
                square as int,
                0,
            ),
        decreases LOG_TERMS - j,
    {
        let d: i128 = 2 * j as i128 + 1;
        proof {
            assert(0 <= t / d <= t) by (nonlinear_arith)
                requires
                    0 <= t,
                    d >= 1,
            ;
            assert(0 <= t * square <= 1_000_000_000 * 1_000_000_000) by (nonlinear_arith)
                requires
                    0 <= t <= 1_000_000_000,
                    0 <= square <= 1_000_000_000,
            ;
        }
        sum = sum + t / d;
        t = t * square / s;
        j = j + 1;
    }
    2 * sum
}

fn log_of(units: i64) -> (r: i64)
    ensures
        r == log_units(units),
{
    if units <= 0 {
        return i64::MIN;
    }
    let mut m: i128 = units as i128;
    let mut k: i128 = 0;
    while m >= 2 * SCALE as i128
        invariant
            0 < m <= i64::MAX,
            0 <= k <= i64::MAX - m,
            halved(m as int, k as int) == halved(units as int, 0),
        decreases m,
    {
        m = m / 2;
        k = k + 1;
    }
    let ghost h = m as int;
    let ghost up = k as int;
    while m < SCALE as i128
        invariant
            0 < m < 2 * SCALE,
            0 <= k + m,
            k <= i64::MAX,
            doubled(m as int, k as int) == doubled(h, up),
        decreases 2 * SCALE - m,
    {
        m = m * 2;
        k = k - 1;
    }
    proof {
        assert(-0x1_0000_0000_0000_0000 * 693_147_181 <= k * LOG_TWO <= 0x1_0000_0000_0000_0000
            * 693_147_181) by (nonlinear_arith)
            requires
                -0x1_0000_0000_0000_0000 <= k <= 0x1_0000_0000_0000_0000,
                LOG_TWO == 693_147_181,
        ;
    }
    clamp(log_series(m) + k * LOG_TWO as i128)
}

fn root_of(units: i64) -> (r: i64)
    ensures
        r == root_units(units),
{
    if units <= 0 {
        return 0;
    }
    let x: i128 = scaled(units);
    let mut low: i128 = 0;
    let mut high: i128 = 0x1_0000_0000_0000;
    proof {
        assert(0 <= units * SCALE < 0x1_0000_0000_0000 * 0x1_0000_0000_0000) by (nonlinear_arith)
            requires
                SCALE == 1_000_000_000,
                0 <= units <= 0x7fff_ffff_ffff_ffff,
        ;
    }
    while high - low > 1
        invariant
            x == units * SCALE,
            0 <= low < high <= 0x1_0000_0000_0000,
            low * low <= x < high * high,
        decreases high - low,
    {
        let mid: i128 = low + (high - low) / 2;
        proof {
            assert(0 <= mid * mid <= 0x1_0000_0000_0000 * 0x1_0000_0000_0000) by (nonlinear_arith)
                requires
                    0 <= mid <= 0x1_0000_0000_0000,
            ;
        }
        if mid * mid <= x {
            low = mid;
        } else {
            high = mid;
        }
    }
    proof {
        assert(is_root(x as int, low as int));
        let r = root_of_whole(x as int);
        assert(r == low) by (nonlinear_arith)
            requires
                r >= 0,
                low >= 0,
                r * r <= x < (r + 1) * (r + 1),
                low * low <= x < (low + 1) * (low + 1),
        ;
    }
    low as i64
}

impl Real for Fixed {
    open spec fn spec_from_i64(n: i64) -> Fixed {
        Fixed { units: clamped(n * SCALE) }
    }

    fn from_i64(n: i64) -> (r: Fixed) {
        Fixed { units: clamp(scaled(n)) }
    }

    open spec fn spec_from_u64(n: u64) -> Fixed {
        if n <= i64::MAX {
            Fixed::spec_from_i64(n as i64)
        } else {
            Fixed { units: i64::MAX }
        }
    }

    fn from_u64(n: u64) -> (r: Fixed) {
        if n <= i64::MAX as u64 {
            Fixed::from_i64(n as i64)
        } else {
            Fixed { units: i64::MAX }
        }
    }

    /// The nearest number in the range to what a decimal text denotes.
    open spec fn spec_parse(text: &String) -> Option<Fixed> {
        match billionths_of(text@) {
            Some(n) => Some(Fixed { units: clamped(n) }),
            None => None,
        }
    }

    fn parse(text: &String) -> (r: Option<Fixed>) {
        match parse_billionths(chars_of(text.as_str())) {
            Some(n) => Some(Fixed { units: clamp(n) }),
            None => None,
        }
    }

    open spec fn spec_plus(self, other: Fixed) -> Fixed {
        Fixed { units: self.units.wrapping_add(other.units) }
    }

    fn plus(self, other: Fixed) -> (r: Fixed) {
        Fixed { units: self.units.wrapping_add(other.units) }
    }

    open spec fn spec_minus(self, other: Fixed) -> Fixed {
        Fixed { units: self.units.wrapping_sub(other.units) }
    }

    fn minus(self, other: Fixed) -> (r: Fixed) {
        Fixed { units: self.units.wrapping_sub(other.units) }
    }

    open spec fn spec_times(self, other: Fixed) -> Fixed {
        Fixed { units: clamped(quotient_of(self.units * other.units, SCALE as int)) }
    }

    fn times(self, other: Fixed) -> (r: Fixed) {
        let a: i128 = self.units as i128;
        let b: i128 = other.units as i128;
        proof {
            assert(-0x4000_0000_0000_0000_0000_0000_0000_0000 <= a * b
                <= 0x4000_0000_0000_0000_0000_0000_0000_0000) by (nonlinear_arith)
                requires
                    -0x8000_0000_0000_0000 <= a <= 0x7fff_ffff_ffff_ffff,
                    -0x8000_0000_0000_0000 <= b <= 0x7fff_ffff_ffff_ffff,
            ;
        }
        Fixed { units: clamp(divide(a * b, SCALE as i128)) }
    }

    open spec fn spec_over(self, other: Fixed) -> Fixed {
        Fixed { units: over_units(self.units, other.units) }
    }

    fn over(self, other: Fixed) -> (r: Fixed) {
        if other.units == 0 {
            if self.units > 0 {
                Fixed { units: i64::MAX }
            } else if self.units < 0 {
                Fixed { units: i64::MIN }
            } else {
                Fixed { units: 0 }
            }
        } else {
            Fixed { units: clamp(divide(scaled(self.units), other.units as i128)) }
        }
    }

    open spec fn spec_negated(self) -> Fixed {
        Fixed { units: 0i64.wrapping_sub(self.units) }
    }

    fn negated(self) -> (r: Fixed) {
        Fixed { units: 0i64.wrapping_sub(self.units) }
    }

    open spec fn spec_magnitude(self) -> Fixed {
        if self.units < 0 {
            self.spec_negated()
        } else {
            self
        }
    }

    fn magnitude(self) -> (r: Fixed) {
        if self.units < 0 {
            self.negated()
        } else {
            self
        }
    }

    open spec fn spec_larger(self, other: Fixed) -> Fixed {
        if self.units < other.units {
            other
        } else {
            self
        }
    }

    fn larger(self, other: Fixed) -> (r: Fixed) {
        if self.units < other.units {
            other
        } else {
            self
        }
    }

    open spec fn spec_smaller(self, other: Fixed) -> Fixed {
        if other.units < self.units {
            other
        } else {
            self
        }
    }

    fn smaller(self, other: Fixed) -> (r: Fixed) {
        if other.units < self.units {
            other
        } else {
            self
        }
    }

    open spec fn spec_sign(self) -> Fixed {
        Fixed {
            units: if self.units < 0 {
                (-SCALE) as i64
            } else {
                SCALE
            },
        }
    }

    fn sign(self) -> (r: Fixed) {
        if self.units < 0 {
            Fixed { units: -SCALE }
        } else {
            Fixed { units: SCALE }
        }
    }

    open spec fn spec_floored(self) -> Fixed {
        Fixed { units: floor_units(self.units) }
    }

    fn floored(self) -> (r: Fixed) {
        let a: i128 = self.units as i128;
        let s: i128 = SCALE as i128;
        let cut: i128 = a / s;
        let whole: i128 = if cut * s > a {
            cut - 1
        } else {
            cut
        };
        proof {
            assert(whole == a as int / s as int) by (nonlinear_arith)
                requires
                    s > 0,
                    whole * s <= a < (whole + 1) * s,
            ;
        }
        Fixed { units: clamp(whole * s) }
    }

    open spec fn spec_rounded(self) -> Fixed {
        Fixed { units: round_units(self.units) }
    }

    fn rounded(self) -> (r: Fixed) {
        let a: i128 = if self.units < 0 {
            -(self.units as i128)
        } else {
            self.units as i128
        };
        let s: i128 = SCALE as i128;
        let up: i128 = (a + s / 2) / s * s;
        if self.units < 0 {
            Fixed { units: clamp(-up) }
        } else {
            Fixed { units: clamp(up) }
        }
    }

    open spec fn spec_log(self) -> Fixed {
        Fixed { units: log_units(self.units) }
    }

    fn log(self) -> (r: Fixed) {
        Fixed { units: log_of(self.units) }
    }

    open spec fn spec_root(self) -> Fixed {
        Fixed { units: root_units(self.units) }
    }

    fn root(self) -> (r: Fixed) {
        Fixed { units: root_of(self.units) }
    }

    open spec fn spec_to_i64(self) -> i64 {
        quotient_of(self.units as int, SCALE as int) as i64
    }

    fn to_i64(self) -> (r: i64) {
        divide(self.units as i128, SCALE as i128) as i64
    }

    open spec fn spec_below(self, other: Fixed) -> bool {
        self.units < other.units
    }

    fn below(self, other: Fixed) -> (r: bool) {
        self.units < other.units
    }

    open spec fn spec_within(self, other: Fixed) -> bool {
        self.units <= other.units
    }

    fn within(self, other: Fixed) -> (r: bool) {
        self.units <= other.units
    }

    open spec fn spec_same(self, other: Fixed) -> bool {
        self.units == other.units
    }

    fn same(self, other: Fixed) -> (r: bool) {
        self.units == other.units
    }

    open spec fn spec_is_finite(self) -> bool {
        true
    }

    fn is_finite(self) -> (r: bool) {
        true
    }
}

} // verus!
