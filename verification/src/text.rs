//! Character classes, decimal and hexadecimal digits, UTF-8 widths and the
//! string operations that the scanners share.

use std::num::ParseIntError;
use vstd::prelude::*;

verus! {

/// The error type of integer parsing in std, carried through unchanged.
#[verifier::external_type_specification]
#[verifier::external_body]
pub struct ExParseIntError(ParseIntError);

/// Whether `c` has the Unicode `Alphabetic` property.
pub uninterp spec fn alphabetic(c: char) -> bool;

/// Whether `c` is in one of the Unicode general categories for numbers.
pub uninterp spec fn numeric(c: char) -> bool;

/// Whether `c` has the Unicode `White_Space` property.
pub uninterp spec fn whitespace(c: char) -> bool;

/// Calls `char::is_alphabetic`; the contract names its answer `alphabetic(c)`.
#[verifier::external_body]
pub(crate) fn is_alphabetic(c: char) -> (r: bool)
    ensures
        r == alphabetic(c),
{
    c.is_alphabetic()
}

/// Calls `char::is_numeric`; the contract names its answer `numeric(c)`.
#[verifier::external_body]
pub(crate) fn is_numeric(c: char) -> (r: bool)
    ensures
        r == numeric(c),
{
    c.is_numeric()
}

/// Calls `char::is_whitespace`; the contract names its answer `whitespace(c)`.
#[verifier::external_body]
pub(crate) fn is_whitespace(c: char) -> (r: bool)
    ensures
        r == whitespace(c),
{
    c.is_whitespace()
}

/// Whether `c` is alphabetic or numeric: what std documents
/// `char::is_alphanumeric` to answer.
pub(crate) fn is_alphanumeric(c: char) -> (r: bool)
    ensures
        r == (alphabetic(c) || numeric(c)),
{
    is_alphabetic(c) || is_numeric(c)
}

/// `String::push` appends the given char to the end of the string.
pub assume_specification[ std::string::String::push ](string: &mut std::string::String, ch: char)
    ensures
        final(string)@ == old(string)@.push(ch),
;

/// Builds the string that holds exactly the given characters.
pub(crate) fn string_from_chars(chars: &Vec<char>) -> (s: String)
    ensures
        s@ == chars@,
{
    let mut s = String::new();
    let mut i: usize = 0;
    while i < chars.len()
        invariant
            i <= chars.len(),
            s@ == chars@.take(i as int),
        decreases chars.len() - i,
    {
        s.push(chars[i]);
        i = i + 1;
        assert(s@ =~= chars@.take(i as int));
    }
    assert(chars@.take(i as int) =~= chars@);
    s
}

/// Whether two character sequences are the same.
pub(crate) fn same_chars(a: &[char], b: &[char]) -> (r: bool)
    ensures
        r == (a@ == b@),
{
    if a.len() != b.len() {
        return false;
    }
    let mut i: usize = 0;
    while i < a.len()
        invariant
            a@.len() == b@.len(),
            i <= a.len(),
            forall|j: int| 0 <= j < i ==> a@[j] == b@[j],
        decreases a.len() - i,
    {
        if a[i] != b[i] {
            return false;
        }
        i = i + 1;
    }
    assert(a@ =~= b@);
    true
}

/// `'0'` to `'9'`.
pub open spec fn is_decimal_digit(c: char) -> bool {
    '0' <= c && c <= '9'
}

/// A non-empty run of decimal digits, with no sign.
pub open spec fn is_decimal(s: Seq<char>) -> bool {
    s.len() > 0 && forall|i: int| 0 <= i < s.len() ==> is_decimal_digit(#[trigger] s[i])
}

/// The number that a run of decimal digits writes.
pub open spec fn decimal_value(s: Seq<char>) -> int
    decreases s.len(),
{
    if s.len() == 0 {
        0
    } else {
        decimal_value(s.drop_last()) * 10 + (s.last() as int - '0' as int)
    }
}

/// The integer that std's integer parsing reads from a text: an optional
/// sign (`-` only where `signed`), then a non-empty run of decimal digits.
pub open spec fn integer_text(s: Seq<char>, signed: bool) -> Option<int> {
    if s.len() > 0 && s[0] == '+' && is_decimal(s.drop_first()) {
        Some(decimal_value(s.drop_first()))
    } else if signed && s.len() > 0 && s[0] == '-' && is_decimal(s.drop_first()) {
        Some(-decimal_value(s.drop_first()))
    } else if is_decimal(s) {
        Some(decimal_value(s))
    } else {
        None
    }
}

/// The value of a text as an `i64`, if it is one.
pub open spec fn i64_text_value(s: Seq<char>) -> Option<int> {
    match integer_text(s, true) {
        Some(n) => if i64::MIN <= n <= i64::MAX {
            Some(n)
        } else {
            None
        },
        None => None,
    }
}

/// The value of a text as a `u64`, if it is one.
pub open spec fn u64_text_value(s: Seq<char>) -> Option<int> {
    match integer_text(s, false) {
        Some(n) => if 0 <= n <= u64::MAX {
            Some(n)
        } else {
            None
        },
        None => None,
    }
}

/// A run of decimal digits is worth at least as much as any of its prefixes.
proof fn lemma_decimal_value_prefix(s: Seq<char>, j: int)
    requires
        is_decimal(s) || s.len() == 0,
        forall|i: int| 0 <= i < s.len() ==> is_decimal_digit(#[trigger] s[i]),
        0 <= j <= s.len(),
    ensures
        0 <= decimal_value(s.take(j)) <= decimal_value(s),
    decreases s.len(),
{
    if j < s.len() {
        let t = s.drop_last();
        assert forall|i: int| 0 <= i < t.len() implies is_decimal_digit(#[trigger] t[i]) by {
            assert(t[i] == s[i]);
        }
        lemma_decimal_value_prefix(t, j);
        assert(t.take(j) =~= s.take(j));
        lemma_decimal_value_prefix(t, t.len() as int);
        assert(t.take(t.len() as int) =~= t);
    } else {
        assert(s.take(j) =~= s);
        if s.len() > 0 {
            let t = s.drop_last();
            assert forall|i: int| 0 <= i < t.len() implies is_decimal_digit(#[trigger] t[i]) by {
                assert(t[i] == s[i]);
            }
            lemma_decimal_value_prefix(t, t.len() as int);
            assert(t.take(t.len() as int) =~= t);
        }
    }
}

/// The value of the decimal digits of `d` from `start` on, where they are a
/// non-empty run of digits worth no more than 2^63.
fn digits_value(d: &[char], start: usize) -> (r: Option<u64>)
    requires
        start <= d@.len(),
    ensures
        r is Some <==> (is_decimal(d@.subrange(start as int, d@.len() as int)) && decimal_value(
            d@.subrange(start as int, d@.len() as int),
        ) <= 0x8000_0000_0000_0000),
        r matches Some(v) ==> v == decimal_value(d@.subrange(start as int, d@.len() as int)),
{
    let ghost all = d@.subrange(start as int, d@.len() as int);
    let mut v: u64 = 0;
    let mut i: usize = start;
    assert(d@.subrange(start as int, start as int) =~= Seq::<char>::empty());
    while i < d.len()
        invariant
            start <= i <= d@.len(),
            all == d@.subrange(start as int, d@.len() as int),
            forall|j: int| start <= j < i ==> is_decimal_digit(#[trigger] d@[j]),
            v == decimal_value(d@.subrange(start as int, i as int)),
            v <= 0x8000_0000_0000_0000u64,
        decreases d@.len() - i,
    {
        let c = d[i];
        let ghost done = d@.subrange(start as int, i as int);
        if !('0' <= c && c <= '9') {
            assert(!is_decimal_digit(all[i - start]));
            return None;
        }
        let digit = (c as u32 - '0' as u32) as u64;
        let ghost next = d@.subrange(start as int, i + 1);
        assert(next.drop_last() =~= done);
        let w: u128 = v as u128 * 10 + digit as u128;
        if w > 0x8000_0000_0000_0000u128 {
            proof {
                if is_decimal(all) {
                    assert forall|j: int| 0 <= j < all.len() implies is_decimal_digit(
                        #[trigger] all[j],
                    ) by {
                        assert(all[j] == d@[start + j]);
                    }
                    lemma_decimal_value_prefix(all, i + 1 - start);
                    assert(all.take(i + 1 - start) =~= next);
                }
            }
            return None;
        }
        v = w as u64;
        i = i + 1;
    }
    assert(d@.subrange(start as int, i as int) =~= all);
    if i == start {
        return None;
    }
    Some(v)
}

/// The value of `text` as an `i64`, as `str::parse::<i64>` reads it: an
/// optional `+` or `-`, then a non-empty run of the digits `0`-`9`, in range.
pub(crate) fn i64_from_text(text: &[char]) -> (r: Option<i64>)
    ensures
        match i64_text_value(text@) {
            Some(v) => r == Some(v as i64),
            None => r is None,
        },
{
    if text.len() == 0 {
        return None;
    }
    let ghost s = text@;
    if text[0] == '+' || text[0] == '-' {
        assert(s.drop_first() =~= s.subrange(1, s.len() as int));
        assert(!is_decimal(s)) by {
            assert(!is_decimal_digit(s[0]));
        }
        match digits_value(text, 1) {
            Some(v) => {
                if text[0] == '+' {
                    if v <= 0x7fff_ffff_ffff_ffffu64 {
                        Some(v as i64)
                    } else {
                        None
                    }
                } else if v == 0x8000_0000_0000_0000u64 {
                    Some(i64::MIN)
                } else {
                    Some(-(v as i64))
                }
            },
            None => None,
        }
    } else {
        assert(s =~= s.subrange(0, s.len() as int));
        match digits_value(text, 0) {
            Some(v) => if v <= 0x7fff_ffff_ffff_ffffu64 {
                Some(v as i64)
            } else {
                None
            },
            None => None,
        }
    }
}

/// Calls `str::parse::<u64>`. std documents that the text must be an
/// optional `+` sign followed by only the digits `0`-`9`, and that a value
/// out of range is an error; the contract states exactly that.
#[verifier::external_body]
pub(crate) fn parse_u64(text: &str) -> (r: Result<u64, ParseIntError>)
    ensures
        r is Ok <==> u64_text_value(text@) is Some,
        r matches Ok(v) ==> u64_text_value(text@) == Some(v as int),
{
    text.parse::<u64>()
}

/// The number of bytes of the UTF-8 encoding of `c`.
pub open spec fn utf8_width(c: char) -> int {
    if (c as u32) < 0x80 {
        1
    } else if (c as u32) < 0x800 {
        2
    } else if (c as u32) < 0x10000 {
        3
    } else {
        4
    }
}

/// The number of bytes of the UTF-8 encoding of `s`.
pub open spec fn utf8_length(s: Seq<char>) -> int
    decreases s.len(),
{
    if s.len() == 0 {
        0
    } else {
        utf8_length(s.drop_last()) + utf8_width(s.last())
    }
}

pub(crate) proof fn lemma_utf8_length_bounds(s: Seq<char>)
    ensures
        s.len() <= utf8_length(s) <= 4 * s.len(),
    decreases s.len(),
{
    if s.len() > 0 {
        lemma_utf8_length_bounds(s.drop_last());
    }
}

/// The byte length of the UTF-8 encoding of `c`.
pub(crate) fn utf8_width_of(c: char) -> (r: usize)
    ensures
        r == utf8_width(c),
{
    let code = c as u32;
    if code < 0x80 {
        1
    } else if code < 0x800 {
        2
    } else if code < 0x10000 {
        3
    } else {
        4
    }
}

/// The value of a hexadecimal digit (either case), if `c` is one.
pub open spec fn hex_value(c: char) -> Option<int> {
    if '0' <= c && c <= '9' {
        Some(c as int - '0' as int)
    } else if 'a' <= c && c <= 'f' {
        Some(c as int - 'a' as int + 10)
    } else if 'A' <= c && c <= 'F' {
        Some(c as int - 'A' as int + 10)
    } else {
        None
    }
}

/// The value of a hexadecimal digit, if `c` is one.
pub(crate) fn hex_digit(c: char) -> (r: Option<u8>)
    ensures
        match hex_value(c) {
            Some(v) => r == Some(v as u8) && 0 <= v < 16,
            None => r is None,
        },
{
    if '0' <= c && c <= '9' {
        Some((c as u32 - '0' as u32) as u8)
    } else if 'a' <= c && c <= 'f' {
        Some((c as u32 - 'a' as u32 + 10) as u8)
    } else if 'A' <= c && c <= 'F' {
        Some((c as u32 - 'A' as u32 + 10) as u8)
    } else {
        None
    }
}

} // verus!
