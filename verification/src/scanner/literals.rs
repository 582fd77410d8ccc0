//! What a step hands out for a token that starts in the middle of a line (a
//! name, a number, a quoted string, a hash colour, an operator), stated over
//! the characters of the source.

use super::lemma_hex_text_is_ascii;
use super::model::{
    colour_char, colour_end, lexeme, number_end, quoted_text, react, span, step, word_char,
    word_end,
    Outcome, Reaction, ScanState,
};
use crate::location::Location;
use crate::text::{alphabetic, hex_value, numeric};
use crate::token::{Lexeme, Tok};
use crate::types::RGBA;
use vstd::prelude::*;

verus! {

broadcast use {Location::lemma_at, Location::lemma_parts};

/// The read position is inside the input, in the middle of a line: no dedent
/// is owed, the line's indentation is settled, and the depth stays within
/// the range the lexer computes in.
pub open spec fn mid_line(s: ScanState) -> bool {
    &&& 0 <= s.position < s.len()
    &&& s.pending == 0
    &&& !s.new_line
    &&& (s.depth + 2) * s.level <= usize::MAX
}

/// A character that continues a name: a letter, a digit or `_`.
pub open spec fn continues_name(c: char) -> bool {
    alphabetic(c) || numeric(c) || c == '_'
}

/// A hexadecimal digit that a hash colour takes: a number that is a digit, or
/// one of `a`-`f`, `A`-`F`.
pub open spec fn colour_digit(c: char) -> bool {
    hex_value(c) is Some && (numeric(c) || ('a' <= c && c <= 'f') || ('A' <= c && c <= 'F'))
}

/// A character after which a hash colour ends without error: no number, no
/// letter, no hexadecimal digit.
pub open spec fn ends_colour(c: char) -> bool {
    !numeric(c) && !alphabetic(c) && !('a' <= c && c <= 'f') && !('A' <= c && c <= 'F')
}

/// The byte that two hexadecimal digits write, the first one high.
pub open spec fn byte_of(hi: char, lo: char) -> u8 {
    (16 * hex_value(hi)->0 + hex_value(lo)->0) as u8
}

/// Where the read position leaves the input, the length.
pub open spec fn clamp(s: ScanState, pos: int) -> int {
    if pos <= s.len() {
        pos
    } else {
        s.len()
    }
}

/// In the middle of a line, a step at a character `c` that is neither a line
/// break nor a slash reads `c` and hands out the token that it starts.
proof fn lemma_step_mid_line(s: ScanState)
    requires
        mid_line(s),
        s.chars[s.position] != '\n',
        !super::model::starts_comment(s),
    ensures
        ({
            let c = s.chars[s.position];
            let s1 = ScanState { prev_new_line: false, ..s.moved(1) };
            react(s.loc(), s.moved(1), c, false) == lexeme(s.loc(), s1, c)
        }),
        step(s) == (match lexeme(
            s.loc(),
            ScanState { prev_new_line: false, ..s.moved(1) },
            s.chars[s.position],
        ) {
            Reaction::Done(s2, o) => (s2, o),
            Reaction::Again(s2) => step(s2),
        }),
{
}

/// A scan through the characters of a name stops at the first that does not
/// continue it.
proof fn lemma_word_end_maximal(chars: Seq<char>, from: int)
    requires
        0 <= from <= chars.len(),
    ensures
        from <= word_end(chars, from) <= chars.len(),
        forall|j: int| from <= j < word_end(chars, from) ==> word_char(#[trigger] chars[j]),
        word_end(chars, from) < chars.len() ==> !word_char(chars[word_end(chars, from)]),
    decreases chars.len() - from,
{
    if from < chars.len() && word_char(chars[from]) {
        lemma_word_end_maximal(chars, from + 1);
    }
}

/// A name is the whole run of letters, digits and `_` that starts at a
/// letter or `_`: the step hands out, from the location of its first
/// character, the keyword that the run spells, or else a name holding the
/// whole run, and reads on from the first character that does not continue
/// it.
pub proof fn lemma_name_is_maximal_run(s: ScanState)
    requires
        mid_line(s),
        alphabetic(s.chars[s.position]) || s.chars[s.position] == '_',
        !numeric(s.chars[s.position]),
        s.chars[s.position] != '\n',
        s.chars[s.position] != '/',
        s.chars[s.position] != '.',
        s.chars[s.position] != '"',
        s.chars[s.position] != '\'',
        s.chars[s.position] != '#',
        s.chars[s.position] != '\0',
    ensures
        ({
            let (s2, o) = step(s);
            let p = s.position;
            let e = clamp(s, s2.position);
            let text = s.chars.subrange(p, e);
            &&& p < e <= s.len()
            &&& forall|j: int| p < j < e ==> continues_name(#[trigger] s.chars[j])
            &&& e < s.len() ==> !continues_name(s.chars[e])
            &&& o matches Outcome::Emit(l, m, _)
            &&& l == s.loc()
            &&& m == if super::model::keyword(text) is Some {
                Lexeme::Plain(super::model::keyword(text)->0)
            } else {
                Lexeme::Name(text)
            }
        }),
{
    lemma_step_mid_line(s);
    let p = s.position;
    let c = s.chars[p];
    lemma_word_end_maximal(s.chars, p + 1);
    let stop = word_end(s.chars, p + 1);
    assert(seq![c] + span(s.chars, p + 1, stop) =~= s.chars.subrange(p, stop));
}

/// The body of a quoted string up to `end`, with no backslash and no closing
/// quote in it, is its text word for word.
proof fn lemma_plain_quoted(chars: Seq<char>, from: int, end: int, quote: char)
    requires
        0 <= from <= end < chars.len(),
        chars[end] == quote,
        quote != '\\',
        forall|j: int| from <= j < end ==> chars[j] != quote && chars[j] != '\\',
    ensures
        quoted_text(chars, from, quote, false).0 == chars.subrange(from, end),
        quoted_text(chars, from, quote, false).1 == end + 1,
    decreases end - from,
{
    if from < end {
        assert(chars[from] != quote && chars[from] != '\\');
        lemma_plain_quoted(chars, from + 1, end, quote);
        assert(seq![chars[from]] + chars.subrange(from + 1, end) =~= chars.subrange(from, end));
    } else {
        assert(chars.subrange(from, end) =~= Seq::<char>::empty());
    }
}

/// A quoted string ends only at the quote that opened it: where the body up
/// to the next such quote holds no backslash, the step hands out that body,
/// every other character (the other kind of quote too) kept, and reads on
/// after the closing quote.
pub proof fn lemma_string_ends_at_its_quote(s: ScanState, n: int)
    requires
        mid_line(s),
        s.chars[s.position] == '"' || s.chars[s.position] == '\'',
        !numeric(s.chars[s.position]),
        0 <= n,
        s.position + 1 + n < s.len(),
        s.chars[s.position + 1 + n] == s.chars[s.position],
        forall|j: int|
            s.position + 1 <= j < s.position + 1 + n ==> #[trigger] s.chars[j] != s.chars[s.position]
                && s.chars[j] != '\\',
    ensures
        step(s).0.position == s.position + 2 + n,
        step(s).1 matches Outcome::Emit(l, Lexeme::Str(text), _) && l == s.loc() && text
            == s.chars.subrange(s.position + 1, s.position + 1 + n),
{
    lemma_step_mid_line(s);
    let p = s.position;
    lemma_plain_quoted(s.chars, p + 1, p + 1 + n, s.chars[p]);
}

/// A scan through the digits of a hash colour passes `n` colour digits and
/// stops at the character after them.
proof fn lemma_colour_run(chars: Seq<char>, from: int, n: int)
    requires
        0 <= from,
        0 <= n,
        from + n <= chars.len(),
        forall|j: int| from <= j < from + n ==> colour_digit(#[trigger] chars[j]),
        from + n < chars.len() ==> !colour_char(chars[from + n]),
    ensures
        colour_end(chars, from) == (from + n, from + n < chars.len() && alphabetic(
            chars[from + n],
        )),
    decreases n,
{
    if n > 0 {
        assert(colour_digit(chars[from]));
        lemma_colour_run(chars, from + 1, n - 1);
    }
}

/// A hash colour of six or eight digits is the colour whose channels are the
/// bytes of its digit pairs in order, each pair read high digit first; with
/// six digits the colour is opaque.
pub proof fn lemma_colour_reads_pairs(s: ScanState, n: int)
    requires
        mid_line(s),
        s.chars[s.position] == '#',
        !numeric('#'),
        n == 6 || n == 8,
        s.position + 1 + n <= s.len(),
        forall|j: int|
            s.position + 1 <= j < s.position + 1 + n ==> colour_digit(#[trigger] s.chars[j]),
        s.position + 1 + n < s.len() ==> ends_colour(s.chars[s.position + 1 + n]),
    ensures
        ({
            let d = s.chars.subrange(s.position + 1, s.position + 1 + n);
            step(s).1 matches Outcome::Emit(l, Lexeme::Color(rgba), _) && l == s.loc() && rgba
                == RGBA(
                byte_of(d[0], d[1]),
                byte_of(d[2], d[3]),
                byte_of(d[4], d[5]),
                if n == 8 {
                    byte_of(d[6], d[7])
                } else {
                    255
                },
            )
        }),
{
    lemma_step_mid_line(s);
    let p = s.position;
    lemma_colour_run(s.chars, p + 1, n);
    let d = s.chars.subrange(p + 1, p + 1 + n);
    assert(span(s.chars, p + 1, p + 1 + n) == d);
    assert(super::model::all_hex(d)) by {
        assert forall|i: int| 0 <= i < d.len() implies (#[trigger] hex_value(d[i])) is Some by {
            assert(colour_digit(s.chars[p + 1 + i]));
        }
    }
    lemma_hex_text_is_ascii(d);
}

/// A scan through number characters passes `n` characters, none of them a
/// point, and stops at the character after them.
proof fn lemma_digit_run(chars: Seq<char>, from: int, n: int, dotted: bool)
    requires
        0 <= from,
        0 <= n,
        from + n <= chars.len(),
        forall|j: int| from <= j < from + n ==> numeric(#[trigger] chars[j]) && chars[j] != '.',
        from + n < chars.len() ==> !numeric(chars[from + n]) && chars[from + n] != '.',
    ensures
        number_end(chars, from, dotted) == (from + n, false),
    decreases n,
{
    if n > 0 {
        assert(numeric(chars[from]) && chars[from] != '.');
        lemma_digit_run(chars, from + 1, n - 1, dotted);
    }
}

/// The number that a run of decimal digits writes does not depend on where
/// the run is cut out of.
proof fn lemma_digits_are_decimal(t: Seq<char>)
    requires
        t.len() > 0,
        forall|j: int| 0 <= j < t.len() ==> '0' <= #[trigger] t[j] && t[j] <= '9',
    ensures
        crate::text::is_decimal(t),
        crate::text::integer_text(t, true) == Some(crate::text::decimal_value(t)),
{
    assert(t[0] != '+' && t[0] != '-');
}

/// Decimal digits write no negative number.
proof fn lemma_decimal_nonneg(t: Seq<char>)
    requires
        forall|j: int| 0 <= j < t.len() ==> '0' <= #[trigger] t[j] && t[j] <= '9',
    ensures
        crate::text::decimal_value(t) >= 0,
    decreases t.len(),
{
    if t.len() > 0 {
        assert forall|j: int| 0 <= j < t.drop_last().len() implies '0' <= #[trigger] t.drop_last()[j]
            && t.drop_last()[j] <= '9' by {
            assert(t.drop_last()[j] == t[j]);
        }
        lemma_decimal_nonneg(t.drop_last());
        assert('0' <= t[t.len() - 1]);
    }
}

/// An integer literal is the whole run of decimal digits that starts at the
/// read position: the step hands out, from the location of its first digit,
/// the integer that the run writes, and reads on after it.
pub proof fn lemma_integer_is_decimal_run(s: ScanState, e: int)
    requires
        mid_line(s),
        s.position < e <= s.len(),
        forall|j: int|
            s.position <= j < e ==> '0' <= #[trigger] s.chars[j] && s.chars[j] <= '9' && numeric(
                s.chars[j],
            ),
        e < s.len() ==> !numeric(s.chars[e]) && s.chars[e] != '.',
        crate::text::decimal_value(s.chars.subrange(s.position, e)) <= i64::MAX,
    ensures
        step(s).1 matches Outcome::Emit(l, Lexeme::Int(v), _) && l == s.loc() && v
            == crate::text::decimal_value(s.chars.subrange(s.position, e)),
        clamp(s, step(s).0.position) == e,
{
    lemma_step_mid_line(s);
    let p = s.position;
    lemma_digit_run(s.chars, p + 1, e - p - 1, false);
    let lit = s.chars.subrange(p, e);
    assert(seq![s.chars[p]] + span(s.chars, p + 1, e) =~= lit);
    assert(!lit.contains('.')) by {
        if lit.contains('.') {
            let i = choose|i: int| 0 <= i < lit.len() && lit[i] == '.';
            assert('0' <= s.chars[p + i] && s.chars[p + i] <= '9');
        }
    }
    lemma_digits_are_decimal(lit);
    lemma_decimal_nonneg(lit);
}

/// A literal with one point is a float literal: where digits, one point and
/// digits (either run may be empty) start at the read position, the step
/// hands out their text, from the location of its first character; where a
/// second point follows, it reports a number error there instead.
pub proof fn lemma_point_makes_float(s: ScanState, m: int, e: int)
    requires
        mid_line(s),
        s.position <= m < e <= s.len(),
        s.chars[m] == '.',
        forall|j: int|
            s.position <= j < e && j != m ==> numeric(#[trigger] s.chars[j]) && s.chars[j] != '.',
        e < s.len() ==> !numeric(s.chars[e]),
        s.chars[s.position] != '\n',
        s.chars[s.position] != '/',
    ensures
        e < s.len() && s.chars[e] == '.' ==> step(s).1 == Outcome::Fail(
            crate::error::LexicalError {
                error: crate::error::LexicalErrorType::NumberError,
                location: s.loc(),
            },
        ),
        !(e < s.len() && s.chars[e] == '.') ==> {
            &&& step(s).1 matches Outcome::Emit(l, Lexeme::Float(text), _) && l == s.loc() && text
                == s.chars.subrange(s.position, e)
            &&& clamp(s, step(s).0.position) == e
        },
{
    let p = s.position;
    lemma_step_mid_line(s);
    let c = s.chars[p];
    if m == p {
        lemma_dotted_run(s.chars, p + 1, e - p - 1);
    } else {
        lemma_dotted_run(s.chars, m + 1, e - m - 1);
        lemma_digit_run_then_point(s.chars, p + 1, m);
    }
    let lit = s.chars.subrange(p, e);
    assert(seq![c] + span(s.chars, p + 1, e) =~= lit);
    assert(lit[m - p] == '.');
}

/// After a point, a scan through number characters passes `n` of them and
/// stops at the next character, reporting whether that is a second point.
proof fn lemma_dotted_run(chars: Seq<char>, from: int, n: int)
    requires
        0 <= from,
        0 <= n,
        from + n <= chars.len(),
        forall|j: int| from <= j < from + n ==> numeric(#[trigger] chars[j]) && chars[j] != '.',
        from + n < chars.len() ==> !numeric(chars[from + n]),
    ensures
        number_end(chars, from, true) == (from + n, from + n < chars.len() && chars[from + n]
            == '.'),
    decreases n,
{
    if n > 0 {
        assert(numeric(chars[from]) && chars[from] != '.');
        lemma_dotted_run(chars, from + 1, n - 1);
    }
}

/// Before the point, a scan through number characters reaches the point and
/// goes on as after it.
proof fn lemma_digit_run_then_point(chars: Seq<char>, from: int, m: int)
    requires
        0 <= from <= m < chars.len(),
        chars[m] == '.',
        forall|j: int| from <= j < m ==> numeric(#[trigger] chars[j]) && chars[j] != '.',
    ensures
        number_end(chars, from, false) == number_end(chars, m + 1, true),
    decreases m - from,
{
    if from < m {
        assert(numeric(chars[from]) && chars[from] != '.');
        lemma_digit_run_then_point(chars, from + 1, m);
    }
}

/// A backslash in a quoted string keeps the character after it, whatever it
/// is: where the body starts with a backslash, the text starts with the
/// character after it.
pub proof fn lemma_backslash_keeps_next(s: ScanState)
    requires
        mid_line(s),
        s.chars[s.position] == '"' || s.chars[s.position] == '\'',
        !numeric(s.chars[s.position]),
        s.position + 2 < s.len(),
        s.chars[s.position + 1] == '\\',
    ensures
        step(s).1 matches Outcome::Emit(l, Lexeme::Str(text), _) && l == s.loc() && text.len() > 0
            && text[0] == s.chars[s.position + 2],
{
    lemma_step_mid_line(s);
    let p = s.position;
    let q = s.chars[p];
    assert(quoted_text(s.chars, p + 1, q, false) == quoted_text(s.chars, p + 2, q, true));
    let rest = quoted_text(s.chars, p + 3, q, false);
    assert(quoted_text(s.chars, p + 2, q, true).0 == seq![s.chars[p + 2]] + rest.0);
}

/// The step hands out the token `t` from the location of the read position
/// and reads on `k` characters later.
pub open spec fn hands_out(s: ScanState, t: Tok, k: int) -> bool {
    &&& step(s).1 matches Outcome::Emit(l, Lexeme::Plain(t2), _) && l == s.loc() && t2 == t
    &&& step(s).0.position == s.position + k
}

/// An operator character followed by `=` is the compound operator of both
/// characters (and `=>` is the arrow); followed by anything else it is the
/// operator of that one character.
pub proof fn lemma_operator_pairs(s: ScanState)
    requires
        mid_line(s),
        s.position + 1 < s.len(),
        !numeric(s.chars[s.position]),
        !alphabetic(s.chars[s.position]),
    ensures
        ({
            let c = s.chars[s.position];
            let n = s.chars[s.position + 1];
            &&& c == '=' ==> if n == '=' {
                hands_out(s, Tok::DoubleEqual, 2)
            } else if n == '>' {
                hands_out(s, Tok::Follow, 2)
            } else {
                hands_out(s, Tok::Equal, 1)
            }
            &&& c == '<' ==> if n == '=' {
                hands_out(s, Tok::Lte, 2)
            } else {
                hands_out(s, Tok::Less, 1)
            }
            &&& c == '>' ==> if n == '=' {
                hands_out(s, Tok::Gte, 2)
            } else {
                hands_out(s, Tok::Greater, 1)
            }
            &&& c == '!' ==> if n == '=' {
                hands_out(s, Tok::NotEqual, 2)
            } else {
                hands_out(s, Tok::ExclamationMark, 1)
            }
            &&& c == ':' ==> if n == '=' {
                hands_out(s, Tok::ColonEqual, 2)
            } else {
                hands_out(s, Tok::Colon, 1)
            }
            &&& c == '+' ==> if n == '=' {
                hands_out(s, Tok::EqualAdd, 2)
            } else {
                hands_out(s, Tok::Plus, 1)
            }
            &&& c == '-' ==> if n == '=' {
                hands_out(s, Tok::EqualSub, 2)
            } else {
                hands_out(s, Tok::Minus, 1)
            }
            &&& c == '*' ==> if n == '=' {
                hands_out(s, Tok::EqualMul, 2)
            } else {
                hands_out(s, Tok::Asterisk, 1)
            }
            &&& c == '/' && n != '/' ==> if n == '=' {
                hands_out(s, Tok::EqualDiv, 2)
            } else {
                hands_out(s, Tok::Slash, 1)
            }
        }),
{
    let c = s.chars[s.position];
    let n = s.chars[s.position + 1];
    if c == '=' || c == '<' || c == '>' || c == '!' || c == ':' || c == '+' || c == '-' || c
        == '*' || (c == '/' && n != '/') {
        lemma_step_mid_line(s);
    }
}

/// A hash colour of any other number of digits than six or eight is a
/// colour error, reported where the digits end.
pub proof fn lemma_colour_needs_six_or_eight(s: ScanState, n: int)
    requires
        mid_line(s),
        s.chars[s.position] == '#',
        !numeric('#'),
        0 <= n,
        n != 6 && n != 8,
        s.position + 1 + n <= s.len(),
        forall|j: int|
            s.position + 1 <= j < s.position + 1 + n ==> colour_digit(#[trigger] s.chars[j]),
        s.position + 1 + n < s.len() ==> ends_colour(s.chars[s.position + 1 + n]),
    ensures
        step(s).1 == Outcome::Fail(
            crate::error::LexicalError {
                error: crate::error::LexicalErrorType::HashColorError,
                location: step(s).0.loc(),
            },
        ),
        clamp(s, step(s).0.position) == s.position + 1 + n,
{
    lemma_step_mid_line(s);
    let p = s.position;
    lemma_colour_run(s.chars, p + 1, n);
    let d = s.chars.subrange(p + 1, p + 1 + n);
    assert(span(s.chars, p + 1, p + 1 + n) == d);
    assert(super::model::all_hex(d)) by {
        assert forall|i: int| 0 <= i < d.len() implies (#[trigger] hex_value(d[i])) is Some by {
            assert(colour_digit(s.chars[p + 1 + i]));
        }
    }
    lemma_hex_text_is_ascii(d);
}

} // verus!
