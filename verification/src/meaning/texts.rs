//! What numbers written as texts denote.
use crate::decimal::{
    behind, behind_sign, billionths_of, filled, magnitude_of, mark_from, point_from,
    rounded,
};
use crate::features::{asset_names, assets_names, feature_names};
use crate::io::{hex_digit, hex_of};
use crate::text::{all_digits, digits_value, is_digit, unsigned_of};
use vstd::prelude::*;

verus! {

/// The number that a digit denotes.
pub open spec fn digit_value(c: char) -> int {
    c as int - '0' as int
}

/// One more digit behind an unsigned number makes it ten times as large and adds the digit, where the
/// result fits, and makes it no number where it does not.
pub proof fn law_digits_count_tens(text: Seq<char>, digit: char, n: u64)
    requires
        unsigned_of(text) == Some(n),
        is_digit(digit),
    ensures
        10 * n + digit_value(digit) <= u64::MAX ==> unsigned_of(text.push(digit)) == Some(
            (10 * n + digit_value(digit)) as u64,
        ),
        10 * n + digit_value(digit) > u64::MAX ==> unsigned_of(text.push(digit)) is None,
{
    let more = text.push(digit);
    if text[0] == '+' {
        assert(more.skip(1) =~= text.skip(1).push(digit));
        assert(more.skip(1).drop_last() =~= text.skip(1));
    } else {
        assert(more.drop_last() =~= text);
    }
}

/// A single digit denotes its own number.
pub proof fn law_digits_denote_themselves(digit: char)
    requires
        is_digit(digit),
    ensures
        unsigned_of(seq![digit]) == Some(digit_value(digit) as u64),
{
    assert(seq![digit].drop_last() =~= Seq::<char>::empty());
    assert(digits_value(seq![digit].drop_last()) == 0);
}

/// A decimal text: digits, a point, and digits.
pub open spec fn with_point(whole: Seq<char>, part: Seq<char>) -> Seq<char> {
    whole.push('.') + part
}

proof fn lemma_no_mark(text: Seq<char>, i: int)
    requires
        0 <= i <= text.len(),
        forall|k: int| 0 <= k < text.len() ==> (#[trigger] text[k]) != 'e' && text[k] != 'E',
    ensures
        mark_from(text, i) == text.len(),
    decreases text.len() - i,
{
    if i < text.len() {
        lemma_no_mark(text, i + 1);
    }
}

proof fn lemma_point(text: Seq<char>, i: int, p: int)
    requires
        0 <= i <= p <= text.len(),
        forall|k: int| 0 <= k < p ==> (#[trigger] text[k]) != '.',
        p < text.len() ==> text[p] == '.',
    ensures
        point_from(text, i) == p,
    decreases p - i,
{
    if i < p {
        lemma_point(text, i + 1, p);
    }
}

/// The parts of a decimal text.
proof fn lemma_parts(whole: Seq<char>, part: Seq<char>)
    requires
        all_digits(whole),
        all_digits(part),
    ensures
        magnitude_of(with_point(whole, part)) == Some(
            rounded(whole + part, (whole.len() + 9) as int),
        ),
        behind_sign(with_point(whole, part)) == with_point(whole, part),
{
    let text = with_point(whole, part);
    let n = whole.len() as int;
    assert forall|k: int| 0 <= k < text.len() implies (#[trigger] text[k]) != 'e' && text[k]
        != 'E' by {
        if k < n {
            assert(is_digit(whole[k]));
        } else if k > n {
            assert(is_digit(part[k - n - 1]));
        }
    }
    lemma_no_mark(text, 0);
    assert(text.take(text.len() as int) =~= text);
    assert forall|k: int| 0 <= k < n implies (#[trigger] text[k]) != '.' by {
        assert(is_digit(whole[k]));
    }
    lemma_point(text, 0, n);
    assert(text.take(n) =~= whole);
    assert(behind(text, n) =~= part);
    let digits = whole + part;
    assert(all_digits(digits)) by {
        assert forall|k: int| 0 <= k < digits.len() implies is_digit(#[trigger] digits[k]) by {
            if k < n {
                assert(is_digit(whole[k]));
            } else {
                assert(is_digit(part[k - n]));
            }
        }
    }
    assert(text[0] == whole[0] && is_digit(whole[0]));
}

/// A text with nine decimal places is read as what its digits denote without the point, in billionths.
pub proof fn law_nine_places_are_read_exactly(whole: Seq<char>, part: Seq<char>)
    requires
        all_digits(whole),
        all_digits(part),
        part.len() == 9,
    ensures
        billionths_of(with_point(whole, part)) == Some(digits_value(whole + part) as int),
{
    lemma_parts(whole, part);
    let digits = whole + part;
    assert(filled(digits, digits.len()) =~= digits);
}

/// A tenth decimal place rounds to the nearest billionth, a half up.
pub proof fn law_a_tenth_place_rounds(whole: Seq<char>, part: Seq<char>)
    requires
        all_digits(whole),
        all_digits(part),
        part.len() == 10,
    ensures
        ({
            let exact = digits_value(whole + part);
            let n = billionths_of(with_point(whole, part));
            &&& n is Some
            &&& -5 < 10 * n->0 - exact <= 5
        }),
{
    lemma_parts(whole, part);
    let digits = whole + part;
    let last = digits[digits.len() - 1];
    assert(last == part[9] && is_digit(part[9]));
    assert(filled(digits, (digits.len() - 1) as nat) =~= digits.drop_last());
}

/// A minus sign negates.
pub proof fn law_signs_negate(whole: Seq<char>, part: Seq<char>)
    requires
        all_digits(whole),
        all_digits(part),
    ensures
        ({
            let text = with_point(whole, part);
            let n = billionths_of(text);
            &&& n is Some
            &&& billionths_of(seq!['-'] + text) == Some(-n->0)
            &&& billionths_of(seq!['+'] + text) == n
        }),
{
    lemma_parts(whole, part);
    let text = with_point(whole, part);
    assert((seq!['-'] + text).skip(1) =~= text);
    assert((seq!['+'] + text).skip(1) =~= text);
    assert(text[0] == whole[0] && is_digit(whole[0]));
}

/// The number that a hexadecimal digit denotes.
pub open spec fn hex_value(c: char) -> int {
    if '0' <= c <= '9' {
        c as int - '0' as int
    } else {
        c as int - 'a' as int + 10
    }
}

/// Each byte is written as two hexadecimal digits, the higher first, that denote it.
pub proof fn law_digits_denote_their_bytes(bytes: Seq<u8>, k: int)
    requires
        0 <= k < bytes.len(),
    ensures
        hex_of(bytes).len() == 2 * bytes.len(),
        ({
            let (high, low) = (hex_of(bytes)[2 * k], hex_of(bytes)[2 * k + 1]);
            &&& ('0' <= high <= '9') || ('a' <= high <= 'f')
            &&& ('0' <= low <= '9') || ('a' <= low <= 'f')
            &&& 16 * hex_value(high) + hex_value(low) == bytes[k]
        }),
{
    let b = bytes[k];
    assert((2 * k) / 2 == k && (2 * k) % 2 == 0 && (2 * k + 1) / 2 == k && (2 * k + 1) % 2 == 1);
    assert(hex_of(bytes)[2 * k] == hex_digit((b / 16) as u8));
    assert(hex_of(bytes)[2 * k + 1] == hex_digit((b % 16) as u8));
}

/// What follows an asset's symbol in the name of a feature says what the feature at its place is.
pub proof fn law_names_tell_what_features_are(a: Seq<char>, b: Seq<char>, i: int)
    requires
        0 <= i < 2,
    ensures
        ({
            let names = feature_names(seq![a, b]);
            let s = if i == 0 {
                a
            } else {
                b
            };
            let k = 17 * i;
            &&& names.len() == 37
            &&& names[k] == s + ".spread_bps"@
            &&& names[k + 1] == s + ".microprice_bps"@
            &&& names[k + 2] == s + ".imbalance_1"@
            &&& names[k + 3] == s + ".imbalance_5"@
            &&& names[k + 4] == s + ".imbalance_10"@
            &&& names[k + 5] == s + ".ofi_100ms"@
            &&& names[k + 6] == s + ".trade_flow_100ms"@
            &&& names[k + 7] == s + ".return_bps_100ms"@
            &&& names[k + 8] == s + ".volatility_bps_100ms"@
            &&& names[k + 9] == s + ".ofi_1000ms"@
            &&& names[k + 10] == s + ".trade_flow_1000ms"@
            &&& names[k + 11] == s + ".return_bps_1000ms"@
            &&& names[k + 12] == s + ".volatility_bps_1000ms"@
            &&& names[k + 13] == s + ".ofi_5000ms"@
            &&& names[k + 14] == s + ".trade_flow_5000ms"@
            &&& names[k + 15] == s + ".return_bps_5000ms"@
            &&& names[k + 16] == s + ".volatility_bps_5000ms"@
            &&& names[34] == "BTC_minus_ETH.return_100ms"@
            &&& names[35] == "BTC_minus_ETH.return_1000ms"@
            &&& names[36] == "BTC_minus_ETH.return_5000ms"@
        }),
{
    let both = seq![a, b];
    assert(both.drop_last() =~= seq![a]);
    assert(seq![a].drop_last() =~= Seq::<Seq<char>>::empty());
    assert(assets_names(seq![a].drop_last()).len() == 0);
    assert(assets_names(seq![a]) =~= asset_names(a));
    assert(assets_names(both) =~= asset_names(a) + asset_names(b));
}

} // verus!
