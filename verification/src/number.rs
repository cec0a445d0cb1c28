//! The arithmetic of prices, quantities and money.
use vstd::prelude::*;

verus! {

/// A number type that the engine can compute with.
///
/// Each operation is a function of its operands: an executable operation returns the value that
/// the specification function of the same name gives. No algebraic law is part of the contract,
/// so what is proved over a `Real` holds of rounding arithmetic as well as of exact arithmetic.
pub trait Real: Copy + Sized {
    /// The number nearest to an integer.
    spec fn spec_from_i64(n: i64) -> Self;

    fn from_i64(n: i64) -> (r: Self)
        ensures
            r == Self::spec_from_i64(n),
    ;

    /// The number nearest to an unsigned integer.
    spec fn spec_from_u64(n: u64) -> Self;

    fn from_u64(n: u64) -> (r: Self)
        ensures
            r == Self::spec_from_u64(n),
    ;

    /// The number that a decimal text denotes, if it denotes one.
    spec fn spec_parse(text: &String) -> Option<Self>;

    fn parse(text: &String) -> (r: Option<Self>)
        ensures
            r == Self::spec_parse(text),
    ;

    spec fn spec_plus(self, other: Self) -> Self;

    fn plus(self, other: Self) -> (r: Self)
        ensures
            r == self.spec_plus(other),
    ;

    spec fn spec_minus(self, other: Self) -> Self;

    fn minus(self, other: Self) -> (r: Self)
        ensures
            r == self.spec_minus(other),
    ;

    spec fn spec_times(self, other: Self) -> Self;

    fn times(self, other: Self) -> (r: Self)
        ensures
            r == self.spec_times(other),
    ;

    spec fn spec_over(self, other: Self) -> Self;

    fn over(self, other: Self) -> (r: Self)
        ensures
            r == self.spec_over(other),
    ;

    spec fn spec_negated(self) -> Self;

    fn negated(self) -> (r: Self)
        ensures
            r == self.spec_negated(),
    ;

    /// The absolute value.
    spec fn spec_magnitude(self) -> Self;

    fn magnitude(self) -> (r: Self)
        ensures
            r == self.spec_magnitude(),
    ;

    /// The larger of two numbers.
    spec fn spec_larger(self, other: Self) -> Self;

    fn larger(self, other: Self) -> (r: Self)
        ensures
            r == self.spec_larger(other),
    ;

    /// The smaller of two numbers.
    spec fn spec_smaller(self, other: Self) -> Self;

    fn smaller(self, other: Self) -> (r: Self)
        ensures
            r == self.spec_smaller(other),
    ;

    /// One with the sign of the number.
    spec fn spec_sign(self) -> Self;

    fn sign(self) -> (r: Self)
        ensures
            r == self.spec_sign(),
    ;

    /// The largest whole number that is not above.
    spec fn spec_floored(self) -> Self;

    fn floored(self) -> (r: Self)
        ensures
            r == self.spec_floored(),
    ;

    /// The nearest whole number, halves away from zero.
    spec fn spec_rounded(self) -> Self;

    fn rounded(self) -> (r: Self)
        ensures
            r == self.spec_rounded(),
    ;

    /// The natural logarithm.
    spec fn spec_log(self) -> Self;

    fn log(self) -> (r: Self)
        ensures
            r == self.spec_log(),
    ;

    /// The square root.
    spec fn spec_root(self) -> Self;

    fn root(self) -> (r: Self)
        ensures
            r == self.spec_root(),
    ;

    /// The whole part as an integer, clamped to the range of `i64`.
    spec fn spec_to_i64(self) -> i64;

    fn to_i64(self) -> (r: i64)
        ensures
            r == self.spec_to_i64(),
    ;

    /// Whether the number is less than another.
    spec fn spec_below(self, other: Self) -> bool;

    fn below(self, other: Self) -> (r: bool)
        ensures
            r == self.spec_below(other),
    ;

    /// Whether the number is less than or equal to another.
    spec fn spec_within(self, other: Self) -> bool;

    fn within(self, other: Self) -> (r: bool)
        ensures
            r == self.spec_within(other),
    ;

    /// Whether two numbers compare as equal.
    spec fn spec_same(self, other: Self) -> bool;

    fn same(self, other: Self) -> (r: bool)
        ensures
            r == self.spec_same(other),
    ;

    /// Whether the number is neither infinite nor undefined.
    spec fn spec_is_finite(self) -> bool;

    fn is_finite(self) -> (r: bool)
        ensures
            r == self.spec_is_finite(),
    ;
}

/// A whole number.
pub open spec fn whole<R: Real>(n: i64) -> R {
    R::spec_from_i64(n)
}

/// Zero.
pub open spec fn zero<R: Real>() -> R {
    whole::<R>(0)
}

/// A quotient of two whole numbers.
pub open spec fn ratio<R: Real>(n: i64, d: i64) -> R {
    whole::<R>(n).spec_over(whole::<R>(d))
}

/// The exact quotient constants that rules are written with.
pub fn quotient<R: Real>(n: i64, d: i64) -> (r: R)
    ensures
        r == ratio::<R>(n, d),
{
    R::from_i64(n).over(R::from_i64(d))
}

/// Whether a number is greater than zero.
pub open spec fn is_positive<R: Real>(x: R) -> bool {
    zero::<R>().spec_below(x)
}

/// Whether a number is greater than zero.
pub fn positive<R: Real>(x: R) -> (r: bool)
    ensures
        r == is_positive(x),
{
    R::from_i64(0).below(x)
}

/// Whether a number is zero.
pub open spec fn is_zero<R: Real>(x: R) -> bool {
    x.spec_same(zero::<R>())
}

/// Whether a number is zero.
pub fn nil<R: Real>(x: R) -> (r: bool)
    ensures
        r == is_zero(x),
{
    x.same(R::from_i64(0))
}

/// What an empty sum is: negative zero, which leaves every number as it is.
pub open spec fn nothing<R: Real>() -> R {
    zero::<R>().spec_negated()
}

/// What an empty sum is.
pub fn empty_sum<R: Real>() -> (r: R)
    ensures
        r == nothing::<R>(),
{
    R::from_i64(0).negated()
}

/// The sum of a sequence, taken from its first number to its last.
pub open spec fn total<R: Real>(s: Seq<R>) -> R
    decreases s.len(),
{
    if s.len() == 0 {
        nothing::<R>()
    } else {
        total(s.drop_last()).spec_plus(s.last())
    }
}

/// Adding one more number to a sum.
pub proof fn lemma_total_push<R: Real>(s: Seq<R>, x: R)
    ensures
        total(s.push(x)) == total(s).spec_plus(x),
{
    assert(s.push(x).drop_last() =~= s);
}

/// The sum of two numbers, as a sequence is summed.
pub open spec fn total2<R: Real>(a: R, b: R) -> R {
    nothing::<R>().spec_plus(a).spec_plus(b)
}

/// The sum of two numbers, as a sum of a sequence has it.
pub fn sum2<R: Real>(a: R, b: R) -> (r: R)
    ensures
        r == total2(a, b),
{
    empty_sum::<R>().plus(a).plus(b)
}

} // verus!
