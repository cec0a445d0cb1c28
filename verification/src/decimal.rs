//! Decimal texts: a sign, digits with a point among them, and an exponent.
use crate::text::{all_digits, digits_value, is_digit};
use vstd::prelude::*;

verus! {

/// How many decimal places are kept.
pub const PLACES: i128 = 9;

/// How many zeros behind a digit take every number out of the range of `i64`.
const FAR: i128 = 20;

/// From where on an exponent counts as large, whatever the length of its text.
const LARGE: i128 = 0x10_0000_0000_0000_0000_0000_0000;

/// Whether a text begins with a sign.
pub open spec fn has_sign(text: Seq<char>) -> bool {
    text.len() > 0 && (text[0] == '-' || text[0] == '+')
}

/// What stands behind the sign, if there is one.
pub open spec fn behind_sign(text: Seq<char>) -> Seq<char> {
    if has_sign(text) {
        text.skip(1)
    } else {
        text
    }
}

/// A number with the sign of a text.
pub open spec fn with_sign(text: Seq<char>, n: int) -> int {
    if text.len() > 0 && text[0] == '-' {
        -n
    } else {
        n
    }
}

/// Where the exponent is marked, from `i` on, or the end.
pub open spec fn mark_from(text: Seq<char>, i: int) -> int
    decreases text.len() - i,
{
    if i < 0 || i >= text.len() {
        text.len() as int
    } else if text[i] == 'e' || text[i] == 'E' {
        i
    } else {
        mark_from(text, i + 1)
    }
}

/// Where the decimal point stands, from `i` on, or the end.
pub open spec fn point_from(text: Seq<char>, i: int) -> int
    decreases text.len() - i,
{
    if i < 0 || i >= text.len() {
        text.len() as int
    } else if text[i] == '.' {
        i
    } else {
        point_from(text, i + 1)
    }
}

/// What stands behind a place.
pub open spec fn behind(text: Seq<char>, i: int) -> Seq<char> {
    if i < text.len() {
        text.skip(i + 1)
    } else {
        Seq::empty()
    }
}

/// The exponent: zero where none is marked, else digits that may stand behind a sign.
pub open spec fn power_of(body: Seq<char>) -> Option<int> {
    let q = mark_from(body, 0);
    let tail = behind(body, q);
    if q >= body.len() {
        Some(0)
    } else if all_digits(behind_sign(tail)) {
        Some(with_sign(tail, digits_value(behind_sign(tail)) as int))
    } else {
        None
    }
}

/// The first `n` digits, with zeros behind them where there are fewer.
pub open spec fn filled(digits: Seq<char>, n: nat) -> Seq<char> {
    Seq::new(
        n,
        |i: int|
            if i < digits.len() {
                digits[i]
            } else {
                '0'
            },
    )
}

/// The number of the first `n` digits, rounded by the digit behind them, halves up.
pub open spec fn rounded(digits: Seq<char>, n: int) -> int {
    if n < 0 {
        0
    } else if n < digits.len() && digits[n] >= '5' {
        digits_value(filled(digits, n as nat)) as int + 1
    } else {
        digits_value(filled(digits, n as nat)) as int
    }
}

/// The billionths that an unsigned decimal text denotes: digits with a point before, among or behind
/// them, and an exponent where one is marked.
pub open spec fn magnitude_of(body: Seq<char>) -> Option<int> {
    let mantissa = body.take(mark_from(body, 0));
    let p = point_from(mantissa, 0);
    let digits = mantissa.take(p) + behind(mantissa, p);
    match power_of(body) {
        Some(power) => if all_digits(digits) {
            Some(rounded(digits, p + PLACES + power))
        } else {
            None
        },
        None => None,
    }
}

/// The billionths that a decimal text denotes, to the nearest, halves away from zero. A text may have
/// a sign, a point before, among or behind its digits, and an exponent; it may not be without digits.
/// Infinite and undefined numbers have no billionths, so that their names denote none.
pub open spec fn billionths_of(text: Seq<char>) -> Option<int> {
    match magnitude_of(behind_sign(text)) {
        Some(n) => Some(with_sign(text, n)),
        None => None,
    }
}

/// Whether two numbers are the same, or both beyond the range of `i64`.
pub open spec fn agree(a: int, b: int) -> bool {
    a == b || (a > i64::MAX && b > i64::MAX)
}

spec fn ten_to(k: nat) -> int
    decreases k,
{
    if k == 0 {
        1
    } else {
        10 * ten_to((k - 1) as nat)
    }
}

proof fn lemma_filled_step(digits: Seq<char>, n: nat)
    ensures
        digits_value(filled(digits, n + 1)) == digits_value(filled(digits, n)) * 10 + (filled(
            digits,
            n + 1,
        )[n as int] as nat - '0' as nat) as nat,
{
    assert(filled(digits, n + 1).drop_last() =~= filled(digits, n));
}

/// Zeros behind the digits multiply by ten.
proof fn lemma_zeros(digits: Seq<char>, k: nat)
    ensures
        digits_value(filled(digits, digits.len() + k)) == 0 <==> digits_value(
            filled(digits, digits.len()),
        ) == 0,
        digits_value(filled(digits, digits.len())) > 0 ==> digits_value(
            filled(digits, digits.len() + k),
        ) >= ten_to(k),
    decreases k,
{
    if k > 0 {
        lemma_zeros(digits, (k - 1) as nat);
        lemma_filled_step(digits, (digits.len() + k - 1) as nat);
    }
}

proof fn lemma_ten_grows(a: nat, b: nat)
    requires
        a <= b,
    ensures
        1 <= ten_to(a) <= ten_to(b),
    decreases b,
{
    if a < b {
        lemma_ten_grows(a, (b - 1) as nat);
    } else if b > 0 {
        lemma_ten_grows((b - 1) as nat, (b - 1) as nat);
    }
}

/// Many zeros behind digits give zero, or a number beyond the range.
proof fn lemma_far(digits: Seq<char>, n: int, m: int)
    requires
        n >= digits.len() + FAR,
        m >= digits.len() + FAR,
    ensures
        agree(rounded(digits, n), rounded(digits, m)),
{
    let a = (n - digits.len()) as nat;
    let b = (m - digits.len()) as nat;
    lemma_zeros(digits, a);
    lemma_zeros(digits, b);
    lemma_ten_grows(FAR as nat, a);
    lemma_ten_grows(FAR as nat, b);
    assert(ten_to(20) > i64::MAX) by {
        reveal_with_fuel(ten_to, 21);
    }
}

/// The characters of a text from one place to another.
fn part(text: &Vec<char>, from: usize, to: usize) -> (r: Vec<char>)
    requires
        from <= to <= text.len(),
    ensures
        r@ == text@.subrange(from as int, to as int),
{
    let mut out: Vec<char> = Vec::new();
    let mut i: usize = from;
    while i < to
        invariant
            from <= i <= to <= text.len(),
            out@ == text@.subrange(from as int, i as int),
        decreases to - i,
    {
        out.push(text[i]);
        i = i + 1;
    }
    out
}

fn digits_only(text: &Vec<char>) -> (r: bool)
    ensures
        r == all_digits(text@),
{
    let mut i: usize = 0;
    while i < text.len()
        invariant
            i <= text.len(),
            forall|k: int| 0 <= k < i ==> is_digit(#[trigger] text@[k]),
        decreases text.len() - i,
    {
        let c: char = text[i];
        if !('0' <= c && c <= '9') {
            assert(!is_digit(text@[i as int]));
            return false;
        }
        i = i + 1;
    }
    text.len() > 0
}

fn strip_sign(text: Vec<char>) -> (r: Vec<char>)
    ensures
        r@ == behind_sign(text@),
{
    if text.len() > 0 && (text[0] == '-' || text[0] == '+') {
        let rest = part(&text, 1, text.len());
        assert(rest@ =~= text@.skip(1));
        rest
    } else {
        text
    }
}

/// The number that digits denote, or a large one where that is large.
fn count_of(digits: &Vec<char>) -> (r: i128)
    requires
        all_digits(digits@),
    ensures
        0 <= r <= 10 * LARGE + 9,
        r == digits_value(digits@) || (r >= LARGE && digits_value(digits@) >= LARGE),
{
    let mut value: i128 = 0;
    let mut i: usize = 0;
    while i < digits.len()
        invariant
            i <= digits.len(),
            all_digits(digits@),
            0 <= value <= 10 * LARGE + 9,
            value == digits_value(digits@.take(i as int)) || (value >= LARGE && digits_value(
                digits@.take(i as int),
            ) >= LARGE),
        decreases digits.len() - i,
    {
        assert(digits@.take(i + 1).drop_last() =~= digits@.take(i as int));
        assert(is_digit(digits@[i as int]));
        let digit: i128 = digits[i] as i128 - '0' as i128;
        if value < LARGE {
            value = value * 10 + digit;
        }
        i = i + 1;
    }
    assert(digits@.take(digits@.len() as int) =~= digits@);
    value
}

/// The number of the first `n` digits, rounded by the digit behind them, or some number beyond the
/// range of `i64` where that is beyond it.
fn round_digits(digits: &Vec<char>, n: i128) -> (r: i128)
    requires
        all_digits(digits@),
    ensures
        0 <= r <= 0x10_0000_0000_0000_0000,
        agree(r as int, rounded(digits@, n as int)),
{
    if n < 0 {
        return 0;
    }
    let len: i128 = digits.len() as i128;
    let end: i128 = if n < len + FAR {
        n
    } else {
        len + FAR
    };
    proof {
        if n >= len + FAR {
            lemma_far(digits@, n as int, end as int);
        }
    }
    let mut value: i128 = 0;
    let mut i: i128 = 0;
    while i < end
        invariant
            0 <= i <= end,
            len == digits.len(),
            all_digits(digits@),
            0 <= value <= 0x0f_0000_0000_0000_0000,
            agree(value as int, digits_value(filled(digits@, i as nat)) as int),
        decreases end - i,
    {
        proof {
            lemma_filled_step(digits@, i as nat);
        }
        let digit: i128 = if i < len {
            assert(is_digit(digits@[i as int]));
            digits[i as usize] as i128 - '0' as i128
        } else {
            0
        };
        if value <= i64::MAX as i128 {
            value = value * 10 + digit;
        }
        i = i + 1;
    }
    if n < len && digits[n as usize] >= '5' {
        value + 1
    } else {
        value
    }
}

/// The exponent, or a large one where it is large.
fn parse_power(tail: Vec<char>) -> (r: Option<i128>)
    ensures
        match r {
            Some(n) => all_digits(behind_sign(tail@)) && ({
                let power = with_sign(tail@, digits_value(behind_sign(tail@)) as int);
                &&& -(10 * LARGE + 9) <= n <= 10 * LARGE + 9
                &&& n == power || (n >= LARGE && power >= LARGE) || (n <= -LARGE && power <= -LARGE)
            }),
            None => !all_digits(behind_sign(tail@)),
        },
{
    let negative = tail.len() > 0 && tail[0] == '-';
    let digits = strip_sign(tail);
    if !digits_only(&digits) {
        None
    } else if negative {
        Some(-count_of(&digits))
    } else {
        Some(count_of(&digits))
    }
}

/// The billionths that an unsigned decimal text denotes, or some number beyond the range of `i64`
/// where that is beyond it.
fn parse_magnitude(body: &Vec<char>) -> (r: Option<i128>)
    ensures
        match magnitude_of(body@) {
            Some(n) => r is Some && 0 <= r->0 <= 0x10_0000_0000_0000_0000 && agree(r->0 as int, n),
            None => r is None,
        },
{
    let mut q: usize = 0;
    while q < body.len() && !(body[q] == 'e' || body[q] == 'E')
        invariant
            q <= body.len(),
            mark_from(body@, 0) == mark_from(body@, q as int),
        decreases body.len() - q,
    {
        q = q + 1;
    }
    let power: i128 = if q < body.len() {
        let tail = part(body, q + 1, body.len());
        assert(tail@ =~= behind(body@, q as int));
        match parse_power(tail) {
            None => return None,
            Some(n) => n,
        }
    } else {
        0
    };
    let mantissa = part(body, 0, q);
    assert(mantissa@ =~= body@.take(q as int));
    let mut p: usize = 0;
    while p < mantissa.len() && mantissa[p] != '.'
        invariant
            p <= mantissa.len(),
            point_from(mantissa@, 0) == point_from(mantissa@, p as int),
        decreases mantissa.len() - p,
    {
        p = p + 1;
    }
    let mut digits = part(&mantissa, 0, p);
    if p < mantissa.len() {
        let mut places = part(&mantissa, p + 1, mantissa.len());
        digits.append(&mut places);
    }
    assert(digits@ =~= mantissa@.take(p as int) + behind(mantissa@, p as int));
    if !digits_only(&digits) {
        return None;
    }
    let n: i128 = p as i128 + PLACES + power;
    proof {
        let exact = p + PLACES + power_of(body@)->0;
        assert(LARGE == 0x10_0000_0000_0000_0000_0000_0000);
        if n != exact && n > 0 {
            lemma_far(digits@, n as int, exact);
        }
    }
    Some(round_digits(&digits, n))
}

/// The billionths that a decimal text denotes, or some number beyond the range of `i64` on the same
/// side where that is beyond it.
pub fn parse_billionths(text: Vec<char>) -> (r: Option<i128>)
    ensures
        match billionths_of(text@) {
            Some(n) => r is Some && (r->0 == n || (r->0 > i64::MAX && n > i64::MAX) || (r->0
                < -i64::MAX && n < -i64::MAX)),
            None => r is None,
        },
{
    let negative = text.len() > 0 && text[0] == '-';
    let body = strip_sign(text);
    match parse_magnitude(&body) {
        None => None,
        Some(n) => if negative {
            Some(-n)
        } else {
            Some(n)
        },
    }
}

} // verus!
