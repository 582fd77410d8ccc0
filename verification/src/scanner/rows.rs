//! Where the tokens stand: the row of the lexer counts the line breaks read
//! so far, so each token's row is the line on which it starts.

use super::laws::lemma_react_facts;
use super::model::{
    at_end, colour_char, colour_end, comment_to_end, first_char, first_newline, indent_width, lexeme,
    line_start, number_end, quoted_text, react, remaining, spaces_from, starts_comment, step, word_char,
    word_end, Outcome, Reaction, ScanState,
};
use crate::location::Location;
use crate::text::{alphabetic, numeric};
use crate::token::{Lexeme, Tok};
use vstd::prelude::*;

verus! {

broadcast use {Location::lemma_at, Location::lemma_parts};

/// The number of line breaks among the first `n` characters of `chars`.
pub open spec fn breaks_before(chars: Seq<char>, n: int) -> int
    decreases n,
{
    if n <= 0 {
        0
    } else {
        breaks_before(chars, n - 1) + if n - 1 < chars.len() && chars[n - 1] == '\n' {
            1int
        } else {
            0int
        }
    }
}

/// No line break stands among the characters from index `i` up to `j`.
pub open spec fn no_break(chars: Seq<char>, i: int, j: int) -> bool {
    forall|k: int| i <= k < j && 0 <= k < chars.len() ==> chars[k] != '\n'
}

/// The row of the state is the line of its read position: one more than the
/// line breaks before it.
pub open spec fn row_counts_lines(s: ScanState) -> bool {
    s.row == 1 + breaks_before(s.chars, s.position)
}

/// The read position at which the step from `s` reads the first character
/// of what it hands out, after the characters it skips.
pub open spec fn token_start(s: ScanState) -> int
    decreases remaining(s),
{
    if s.position < 0 || s.position >= s.len() || comment_to_end(s) {
        s.position
    } else {
        let (c, s1) = first_char(s);
        match react(s.loc(), s1, c, starts_comment(s)) {
            Reaction::Again(s2) => if s.position < s2.position {
                token_start(s2)
            } else {
                s.position
            },
            Reaction::Done(_, _) => s.position,
        }
    }
}

/// A string literal that holds a line break: the lexer reads across the line
/// break without counting it.
pub open spec fn string_across_lines(o: Outcome) -> bool {
    o matches Outcome::Emit(_, Lexeme::Str(t), _) && t.contains('\n')
}

/// The line breaks before `j` are those before `i` where none stands between.
proof fn lemma_breaks_same(chars: Seq<char>, i: int, j: int)
    requires
        0 <= i <= j,
        no_break(chars, i, j),
    ensures
        breaks_before(chars, j) == breaks_before(chars, i),
    decreases j - i,
{
    if i < j {
        lemma_breaks_same(chars, i, j - 1);
    }
}

/// A scan for the next line break passes none.
proof fn lemma_first_newline_no_break(chars: Seq<char>, from: int)
    ensures
        no_break(chars, from, first_newline(chars, from)),
    decreases chars.len() - from,
{
    if from < chars.len() && chars[from] != '\n' {
        lemma_first_newline_no_break(chars, from + 1);
    }
}

/// The leading spaces that a line's indentation counts hold no line break.
proof fn lemma_spaces_no_break(chars: Seq<char>, from: int)
    requires
        0 <= from,
    ensures
        forall|k: int| from <= k < from + spaces_from(chars, from) ==> chars[k] == ' ',
        from + spaces_from(chars, from) >= chars.len() ==> forall|k: int|
            from <= k < chars.len() ==> chars[k] == ' ',
    decreases chars.len() - from,
{
    if from < chars.len() && chars[from] == ' ' {
        lemma_spaces_no_break(chars, from + 1);
    }
}

proof fn lemma_indent_no_break(chars: Seq<char>, from: int)
    requires
        0 <= from,
    ensures
        no_break(chars, from, from + indent_width(chars, from)),
{
    lemma_spaces_no_break(chars, from);
}

/// The characters of a number hold no line break when no line break counts
/// as numeric; a second point ends them.
proof fn lemma_number_no_break(chars: Seq<char>, from: int, dotted: bool)
    requires
        !numeric('\n'),
        0 <= from,
    ensures
        no_break(chars, from, number_end(chars, from, dotted).0),
        number_end(chars, from, dotted).1 ==> 0 <= number_end(chars, from, dotted).0 < chars.len()
            && chars[number_end(chars, from, dotted).0] == '.',
    decreases chars.len() - from,
{
    if from < chars.len() {
        if chars[from] == '.' {
            if !dotted {
                lemma_number_no_break(chars, from + 1, true);
            }
        } else if numeric(chars[from]) {
            lemma_number_no_break(chars, from + 1, dotted);
        }
    }
}

proof fn lemma_colour_no_break(chars: Seq<char>, from: int)
    requires
        !numeric('\n'),
        !alphabetic('\n'),
        0 <= from,
    ensures
        no_break(chars, from, colour_end(chars, from).0),
        colour_end(chars, from).1 ==> no_break(chars, from, colour_end(chars, from).0 + 1),
    decreases chars.len() - from,
{
    if from < chars.len() && colour_char(chars[from]) {
        lemma_colour_no_break(chars, from + 1);
    }
}

proof fn lemma_word_no_break(chars: Seq<char>, from: int)
    requires
        !numeric('\n'),
        !alphabetic('\n'),
    ensures
        no_break(chars, from, word_end(chars, from)),
    decreases chars.len() - from,
{
    if from < chars.len() && word_char(chars[from]) {
        lemma_word_no_break(chars, from + 1);
    }
}

/// A quoted string reads across a line break only where its text keeps it.
proof fn lemma_quoted_no_break(chars: Seq<char>, from: int, quote: char, escaped: bool)
    requires
        quote != '\n',
    ensures
        no_break(chars, from, quoted_text(chars, from, quote, escaped).1) || quoted_text(
            chars,
            from,
            quote,
            escaped,
        ).0.contains('\n'),
    decreases chars.len() - from,
{
    if from < chars.len() {
        let c = chars[from];
        if escaped || (c != '\\' && c != quote) {
            lemma_quoted_no_break(chars, from + 1, quote, false);
            let rest = quoted_text(chars, from + 1, quote, false);
            let text = seq![c] + rest.0;
            if c == '\n' {
                assert(text[0] == '\n');
            } else if rest.0.contains('\n') {
                let i = choose|i: int| 0 <= i < rest.0.len() && rest.0[i] == '\n';
                assert(text[i + 1] == '\n');
            }
        } else if c == '\\' {
            lemma_quoted_no_break(chars, from + 1, quote, true);
        }
    }
}

/// The characters that a token after `c` takes, from `s.position` to where
/// `lexeme` leaves the read position, hold no line break, unless the token is
/// a string that keeps one; each token it hands out starts at `loc`.
proof fn lemma_lexeme_rows(loc: Location, s: ScanState, c: char)
    requires
        !numeric('\n'),
        !alphabetic('\n'),
        0 <= s.position,
    ensures
        match lexeme(loc, s, c) {
            Reaction::Done(s2, o) => !(o is Abort) && !string_across_lines(o) ==> {
                &&& s2.row == s.row
                &&& s.position <= s2.position
                &&& no_break(s.chars, s.position, s2.position)
                &&& o matches Outcome::Emit(l, _, _) ==> l == loc
            },
            Reaction::Again(s2) => s2 == s,
        },
{
    let p = s.position;
    let len = s.len();
    super::model::lemma_number_end_range(s.chars, p, c == '.');
    lemma_number_no_break(s.chars, p, c == '.');
    super::model::lemma_quoted_text_range(s.chars, p, c, false);
    if c == '"' || c == '\'' {
        lemma_quoted_no_break(s.chars, p, c, false);
    }
    super::model::lemma_colour_end_range(s.chars, p);
    lemma_colour_no_break(s.chars, p);
    super::model::lemma_word_end_range(s.chars, p);
    lemma_word_no_break(s.chars, p);
}

/// Whether a reaction at `loc` leaves the row counting lines and hands out,
/// other than a line break, only tokens that start at `loc`.
spec fn keeps_rows(re: Reaction, loc: Location) -> bool {
    match re {
        Reaction::Done(s2, o) => !(o is Abort) && !string_across_lines(o) ==> {
            &&& row_counts_lines(s2)
            &&& o matches Outcome::Emit(l, m, _) ==> (m != Lexeme::Plain(Tok::NewLine) ==> l
                == loc)
        },
        Reaction::Again(s2) => row_counts_lines(s2),
    }
}

/// The token after `c`, read from a state whose row counts lines, keeps it so.
proof fn lemma_lexeme_keeps_rows(loc: Location, s: ScanState, c: char)
    requires
        !numeric('\n'),
        !alphabetic('\n'),
        0 <= s.position,
        row_counts_lines(s),
    ensures
        keeps_rows(lexeme(loc, s, c), loc),
{
    lemma_lexeme_rows(loc, s, c);
    match lexeme(loc, s, c) {
        Reaction::Done(s2, o) => {
            if !(o is Abort) && !string_across_lines(o) {
                lemma_breaks_same(s.chars, s.position, s2.position);
            }
        },
        Reaction::Again(_) => {},
    }
}

/// At the start of a line, the skipped indentation holds no line break.
proof fn lemma_line_start_keeps_rows(loc: Location, s: ScanState, c: char, cfi: int)
    requires
        !numeric('\n'),
        !alphabetic('\n'),
        1 <= s.position <= s.len(),
        s.chars[s.position - 1] == c,
        c != '\n',
        s.row == 1 + breaks_before(s.chars, s.position - 1),
    ensures
        keeps_rows(line_start(loc, s, c, cfi), loc),
{
    let p = s.position - 1;
    let count = indent_width(s.chars, p);
    lemma_indent_no_break(s.chars, p);
    super::model::lemma_indent_width_range(s.chars, p);
    let s3 = if count > 0 {
        ScanState { position: s.position + count - 1, ..s }
    } else {
        s
    };
    let q = s3.position;
    assert(no_break(s.chars, p, q));
    lemma_breaks_same(s.chars, p, q);
    if count > 0 {
        assert(no_break(s.chars, p, q - 1));
        lemma_breaks_same(s.chars, p, q - 1);
    } else {
        lemma_breaks_same(s.chars, p, p + 1);
    }
    lemma_lexeme_keeps_rows(loc, ScanState { new_line: false, ..s3 }, c);
}

/// What `react` does to the row: after a line break, the row counts it; after
/// any other character, the token's characters hold none.
proof fn lemma_react_rows(loc: Location, s: ScanState, c: char, after_comment: bool)
    requires
        super::after_read(s),
        !numeric('\n'),
        !alphabetic('\n'),
        s.row + (if c == '\n' {
            1int
        } else {
            0int
        }) == 1 + breaks_before(s.chars, s.position),
        c != '\n' ==> s.chars[s.position - 1] == c,
    ensures
        keeps_rows(react(loc, s, c, after_comment), loc),
{
    if (s.depth + 2) * s.level <= usize::MAX && c != '\n' {
        let p = s.position - 1;
        lemma_breaks_same(s.chars, p, p + 1);
        let s2 = ScanState { prev_new_line: false, ..s };
        if s2.pending > 0 {
        } else if s2.new_line {
            lemma_line_start_keeps_rows(loc, s2, c, (s.depth + 1) * s.level);
        } else {
            lemma_lexeme_keeps_rows(loc, s2, c);
        }
    }
}

/// The rows count lines: where the row of the lexer is one more than the line
/// breaks before its read position (as it is at the start, see
/// `lemma_start_counts_lines`), a step keeps it so, and every token it hands
/// out other than a line break starts on the row one more than the line
/// breaks before its first character. This holds where no line break counts
/// as a letter or a digit and no string literal spans lines (the lexer reads
/// across those without counting them).
pub proof fn lemma_rows_count_lines(s: ScanState)
    requires
        s.well_formed(),
        row_counts_lines(s),
    ensures
        ({
            let (s2, o) = step(s);
            !numeric('\n') && !alphabetic('\n') && !(o is Abort) && !string_across_lines(o) ==> {
                &&& row_counts_lines(s2)
                &&& o matches Outcome::Emit(l, m, _) ==> (m != Lexeme::Plain(Tok::NewLine)
                    ==> l.line() == 1 + breaks_before(s.chars, token_start(s)))
            }
        }),
    decreases remaining(s),
{
    if !numeric('\n') && !alphabetic('\n') {
        let p = s.position;
        if p < 0 || p >= s.len() {
        } else if comment_to_end(s) {
            assert(step(s) == at_end(first_char(s).1));
            lemma_first_newline_no_break(s.chars, p + 2);
            assert(no_break(s.chars, p, s.len() + 1));
            lemma_breaks_same(s.chars, p, s.len() + 1);
        } else {
            let (c, s1) = first_char(s);
            if starts_comment(s) {
                let e = first_newline(s.chars, p + 2);
                lemma_first_newline_no_break(s.chars, p + 2);
                super::model::lemma_first_newline_range(s.chars, p + 2);
                assert(no_break(s.chars, p, e));
                lemma_breaks_same(s.chars, p, e);
            }
            lemma_react_facts(s.loc(), s1, c, starts_comment(s));
            lemma_react_rows(s.loc(), s1, c, starts_comment(s));
            match react(s.loc(), s1, c, starts_comment(s)) {
                Reaction::Done(s2, o) => {},
                Reaction::Again(s2) => {
                    if p < s2.position {
                        lemma_rows_count_lines(s2);
                    }
                },
            }
        }
    }
}

/// At the start of the input the row is the first line.
pub proof fn lemma_start_counts_lines(chars: Seq<char>, level: int)
    ensures
        row_counts_lines(ScanState::start(chars, level)),
{
}

} // verus!
