//! Texts and lists of texts.
use vstd::prelude::*;
use vstd::string::{StrSliceExecFns, StringExecFns};

verus! {

/// The contents of a list of texts.
pub open spec fn texts(list: Seq<String>) -> Seq<Seq<char>> {
    list.map_values(|s: String| s@)
}

/// The first place, from `i` on, at which a list holds a text.
pub open spec fn place_from(list: Seq<Seq<char>>, text: Seq<char>, i: int) -> Option<int>
    decreases list.len() - i,
{
    if i < 0 || i >= list.len() {
        None
    } else if list[i] == text {
        Some(i)
    } else {
        place_from(list, text, i + 1)
    }
}

/// The first place at which a list holds a text.
pub open spec fn place_of(list: Seq<Seq<char>>, text: Seq<char>) -> Option<int> {
    place_from(list, text, 0)
}

/// A place is within the list and holds the text; where there is none, the list does not hold it.
pub proof fn lemma_place(list: Seq<Seq<char>>, text: Seq<char>, i: int)
    requires
        0 <= i <= list.len(),
    ensures
        match place_from(list, text, i) {
            Some(k) => i <= k < list.len() && list[k] == text && forall|j: int|
                i <= j < k ==> list[j] != text,
            None => forall|j: int| i <= j < list.len() ==> list[j] != text,
        },
    decreases list.len() - i,
{
    if i < list.len() && list[i] != text {
        lemma_place(list, text, i + 1);
    }
}

/// Whether two texts are the same.
pub fn same_text(a: &str, b: &str) -> (r: bool)
    ensures
        r == (a@ == b@),
{
    a.to_owned() == b.to_owned()
}

/// The first place at which a list holds a text.
pub fn find_text(list: &[String], text: &str) -> (r: Option<usize>)
    ensures
        match place_of(texts(list@), text@) {
            Some(k) => r == Some(k as usize) && 0 <= k < list.len(),
            None => r is None,
        },
{
    let mut i: usize = 0;
    while i < list.len()
        invariant
            i <= list.len(),
            place_of(texts(list@), text@) == place_from(texts(list@), text@, i as int),
        decreases list.len() - i,
    {
        if same_text(list[i].as_str(), text) {
            return Some(i);
        }
        i = i + 1;
    }
    None
}

/// Whether two lists hold the same texts in the same order.
pub fn same_texts(a: &Vec<String>, b: &Vec<String>) -> (r: bool)
    ensures
        r == (texts(a@) == texts(b@)),
{
    if a.len() != b.len() {
        proof {
            assert(texts(a@).len() != texts(b@).len());
        }
        return false;
    }
    let mut i: usize = 0;
    while i < a.len()
        invariant
            i <= a.len(),
            a.len() == b.len(),
            forall|k: int| 0 <= k < i ==> texts(a@)[k] == texts(b@)[k],
        decreases a.len() - i,
    {
        if a[i] != b[i] {
            proof {
                assert(texts(a@)[i as int] != texts(b@)[i as int]);
            }
            return false;
        }
        i = i + 1;
    }
    proof {
        assert(texts(a@) =~= texts(b@));
    }
    true
}

/// A text followed by another.
pub fn joined(a: &str, b: &str) -> (r: String)
    ensures
        r@ == a@ + b@,
{
    let mut out = a.to_owned();
    out.append(b);
    out
}

/// `String::push` appends a character.
pub assume_specification[ std::string::String::push ](text: &mut std::string::String, c: char)
    ensures
        final(text)@ == old(text)@.push(c),
;

/// A character in lower case, where it is an ASCII letter.
pub open spec fn lower(c: char) -> char {
    if 'A' <= c <= 'Z' {
        (c as u8 + 32) as char
    } else {
        c
    }
}

/// A text with its ASCII letters in lower case.
pub open spec fn lowered(text: Seq<char>) -> Seq<char> {
    text.map_values(|c: char| lower(c))
}

/// A text with its ASCII letters in lower case.
pub fn lowercase(text: &str) -> (r: String)
    ensures
        r@ == lowered(text@),
{
    let chars = chars_of(text);
    let mut out = String::new();
    let mut i: usize = 0;
    while i < chars.len()
        invariant
            i <= chars.len(),
            chars@ == text@,
            out@ == lowered(text@.take(i as int)),
        decreases chars.len() - i,
    {
        let c: char = chars[i];
        let ghost before = out@;
        if 'A' <= c && c <= 'Z' {
            out.push((c as u8 + 32) as char);
        } else {
            out.push(c);
        }
        assert(lowered(text@.take(i + 1)) =~= lowered(text@.take(i as int)).push(lower(c)));
        i = i + 1;
    }
    assert(text@.take(text@.len() as int) =~= text@);
    out
}

/// The first place, from `i` on, at which a text holds a character.
pub open spec fn char_from(text: Seq<char>, c: char, i: int) -> Option<int>
    decreases text.len() - i,
{
    if i < 0 || i >= text.len() {
        None
    } else if text[i] == c {
        Some(i)
    } else {
        char_from(text, c, i + 1)
    }
}

/// What stands before the first occurrence of a character, if there is one.
pub open spec fn before_char(text: Seq<char>, c: char) -> Option<Seq<char>> {
    match char_from(text, c, 0) {
        Some(k) => Some(text.take(k)),
        None => None,
    }
}

/// The characters of a text.
pub fn chars_of(text: &str) -> (r: Vec<char>)
    ensures
        r@ == text@,
{
    let mut out: Vec<char> = Vec::new();
    for c in it: text.chars()
        invariant
            it.seq() == text@,
            out@ == text@.take(it.index()),
    {
        out.push(c);
    }
    assert(text@.take(text@.len() as int) =~= text@);
    out
}

/// What stands before the first occurrence of a character, if there is one.
pub fn prefix_before(text: &str, c: char) -> (r: Option<String>)
    ensures
        match before_char(text@, c) {
            Some(p) => r is Some && r->0@ == p,
            None => r is None,
        },
{
    let chars = chars_of(text);
    let mut i: usize = 0;
    while i < chars.len()
        invariant
            i <= chars.len(),
            chars@ == text@,
            char_from(text@, c, 0) == char_from(text@, c, i as int),
        decreases chars.len() - i,
    {
        if chars[i] == c {
            assert(text@.subrange(0, i as int) =~= text@.take(i as int));
            return Some(text.substring_char(0, i).to_owned());
        }
        i = i + 1;
    }
    None
}

/// Whether a character is a hexadecimal digit.
pub open spec fn is_hex_digit(c: char) -> bool {
    ||| '0' <= c <= '9'
    ||| 'a' <= c <= 'f'
    ||| 'A' <= c <= 'F'
}

/// Whether a text is a given number of hexadecimal digits.
pub open spec fn is_hex(text: Seq<char>, len: int) -> bool {
    text.len() == len && forall|i: int| 0 <= i < text.len() ==> is_hex_digit(#[trigger] text[i])
}

/// Whether a text is a given number of hexadecimal digits.
pub fn all_hex(text: &str, len: usize) -> (r: bool)
    ensures
        r == is_hex(text@, len as int),
{
    let chars = chars_of(text);
    if chars.len() != len {
        return false;
    }
    let mut i: usize = 0;
    while i < chars.len()
        invariant
            i <= chars.len(),
            chars@ == text@,
            forall|k: int| 0 <= k < i ==> is_hex_digit(#[trigger] text@[k]),
        decreases chars.len() - i,
    {
        let c: char = chars[i];
        if !(('0' <= c && c <= '9') || ('a' <= c && c <= 'f') || ('A' <= c && c <= 'F')) {
            assert(!is_hex_digit(text@[i as int]));
            return false;
        }
        i = i + 1;
    }
    true
}

/// Whether a character is a decimal digit.
pub open spec fn is_digit(c: char) -> bool {
    '0' <= c <= '9'
}

/// The number that decimal digits denote.
pub open spec fn digits_value(digits: Seq<char>) -> nat
    decreases digits.len(),
{
    if digits.len() == 0 {
        0
    } else {
        digits_value(digits.drop_last()) * 10 + (digits.last() as nat - '0' as nat) as nat
    }
}

/// Whether a text is decimal digits and nothing else.
pub open spec fn all_digits(text: Seq<char>) -> bool {
    text.len() > 0 && forall|i: int| 0 <= i < text.len() ==> is_digit(#[trigger] text[i])
}

/// The digits of an unsigned integer, which may stand behind a plus sign.
pub open spec fn unsigned_digits(text: Seq<char>) -> Seq<char> {
    if text.len() > 0 && text[0] == '+' {
        text.skip(1)
    } else {
        text
    }
}

/// The unsigned integer that a text denotes, if it denotes one that fits.
pub open spec fn unsigned_of(text: Seq<char>) -> Option<u64> {
    digits_of(unsigned_digits(text))
}

/// A longer run of digits denotes no smaller number.
proof fn lemma_digits_grow(digits: Seq<char>, i: int)
    requires
        0 <= i <= digits.len(),
        forall|k: int| 0 <= k < digits.len() ==> is_digit(#[trigger] digits[k]),
    ensures
        digits_value(digits.take(i)) <= digits_value(digits),
    decreases digits.len() - i,
{
    if i < digits.len() {
        assert(digits.take(i + 1).drop_last() =~= digits.take(i));
        lemma_digits_grow(digits, i + 1);
    } else {
        assert(digits.take(i) =~= digits);
    }
}

/// The number that digits denote, where they are digits and the number fits.
pub open spec fn digits_of(digits: Seq<char>) -> Option<u64> {
    if all_digits(digits) && digits_value(digits) <= u64::MAX {
        Some(digits_value(digits) as u64)
    } else {
        None
    }
}

/// The number that digits denote, where they are digits and the number fits.
pub fn parse_digits(digits: &Vec<char>) -> (r: Option<u64>)
    ensures
        r == digits_of(digits@),
{
    if digits.len() == 0 {
        return None;
    }
    let mut value: u64 = 0;
    let mut i: usize = 0;
    while i < digits.len()
        invariant
            i <= digits.len(),
            forall|k: int| 0 <= k < i ==> is_digit(#[trigger] digits@[k]),
            value == digits_value(digits@.take(i as int)),
        decreases digits.len() - i,
    {
        let c: char = digits[i];
        if !('0' <= c && c <= '9') {
            assert(!is_digit(digits@[i as int]));
            return None;
        }
        let digit: u64 = c as u64 - '0' as u64;
        proof {
            assert(digits@.take(i + 1).drop_last() =~= digits@.take(i as int));
            if forall|k: int| 0 <= k < digits@.len() ==> is_digit(#[trigger] digits@[k]) {
                lemma_digits_grow(digits@, i + 1);
            }
        }
        if value > u64::MAX / 10 || value * 10 > u64::MAX - digit {
            return None;
        }
        value = value * 10 + digit;
        i = i + 1;
    }
    assert(digits@.take(digits@.len() as int) =~= digits@);
    Some(value)
}

/// The unsigned integer that a text denotes, if it denotes one that fits.
pub fn parse_unsigned(text: &str) -> (r: Option<u64>)
    ensures
        r == unsigned_of(text@),
{
    let mut digits = chars_of(text);
    if digits.len() > 0 && digits[0] == '+' {
        digits.remove(0);
        assert(digits@ =~= text@.skip(1));
    }
    parse_digits(&digits)
}

/// Texts with a separator between them.
pub open spec fn separated(parts: Seq<Seq<char>>, separator: Seq<char>) -> Seq<char>
    decreases parts.len(),
{
    if parts.len() == 0 {
        Seq::empty()
    } else if parts.len() == 1 {
        parts[0]
    } else {
        separated(parts.drop_last(), separator) + separator + parts.last()
    }
}

/// Texts with a separator between them.
pub fn join(parts: &Vec<String>, separator: &str) -> (r: String)
    ensures
        r@ == separated(texts(parts@), separator@),
{
    let mut out = String::new();
    if parts.len() == 0 {
        assert(texts(parts@).len() == 0);
        return out;
    }
    out.append(parts[0].as_str());
    let mut i: usize = 1;
    proof {
        assert(texts(parts@).take(1)[0] == parts@[0]@);
    }
    assert(out@ =~= separated(texts(parts@).take(1), separator@));
    while i < parts.len()
        invariant
            1 <= i <= parts.len(),
            out@ == separated(texts(parts@).take(i as int), separator@),
        decreases parts.len() - i,
    {
        proof {
            let next = texts(parts@).take(i + 1);
            assert(next.drop_last() =~= texts(parts@).take(i as int));
            assert(next.last() == parts@[i as int]@);
        }
        out.append(separator);
        out.append(parts[i].as_str());
        i = i + 1;
    }
    assert(texts(parts@).take(parts@.len() as int) =~= texts(parts@));
    out
}

} // verus!
