//! What the lexer does at the end of a line: a `NewLine` for a line that
//! held a token, nothing for a blank line or a comment line, nothing where
//! the next line continues this one, stated over the characters of the
//! source.

use super::model::{first_char, spaces_from, starts_comment, step, Outcome, ScanState};
use crate::location::Location;
use crate::token::{Lexeme, Tok};
use vstd::prelude::*;

verus! {

broadcast use {Location::lemma_at, Location::lemma_parts};

/// After a line break at `p`, the next line starts with `w` spaces and then
/// another character.
pub open spec fn next_line_indented(s: ScanState, p: int, w: int) -> bool {
    &&& 0 <= w
    &&& p + 1 + w < s.len()
    &&& forall|j: int| p + 1 <= j < p + 1 + w ==> s.chars[j] == ' '
    &&& s.chars[p + 1 + w] != ' '
}

/// An indentation of `w` lies strictly between one and two steps deeper than
/// the current depth: such a line continues the one before it.
pub open spec fn continues(s: ScanState, w: int) -> bool {
    (s.depth + 1) * s.level < w < (s.depth + 2) * s.level
}

/// The state at the start of the line after a line break at `p`.
pub open spec fn after_break(s: ScanState, p: int) -> ScanState {
    ScanState { position: p + 1, row: s.row + 1, column: 1, ..s }
}

/// The `NewLine` at the start of the line after a line break at `p`, and
/// the state it leaves: the next token starts a line.
pub open spec fn new_line_after(s: ScanState, p: int) -> (ScanState, Outcome) {
    let t = ScanState { new_line: true, prev_new_line: true, ..after_break(s, p) };
    (t, Outcome::Emit(t.loc(), Lexeme::Plain(Tok::NewLine), t.loc()))
}

proof fn lemma_spaces_count(chars: Seq<char>, p: int, w: int)
    requires
        0 <= p,
        0 <= w,
        p + w < chars.len(),
        forall|j: int| p <= j < p + w ==> chars[j] == ' ',
        chars[p + w] != ' ',
    ensures
        spaces_from(chars, p) == w,
    decreases w,
{
    if w > 0 {
        lemma_spaces_count(chars, p + 1, w - 1);
    }
}

/// The end of a line that held a token: a line break, where the next line
/// does not continue this one, hands out a `NewLine` at the first column of
/// the next line, which the next token starts.
pub proof fn lemma_line_break_ends_line(s: ScanState, w: int)
    requires
        0 <= s.position < s.len(),
        s.chars[s.position] == '\n',
        !s.prev_new_line,
        (s.depth + 2) * s.level <= usize::MAX,
        next_line_indented(s, s.position, w),
        !continues(s, w),
    ensures
        step(s) == new_line_after(s, s.position),
{
    lemma_spaces_count(s.chars, s.position + 1, w);
}

/// A blank line hands out nothing: a line break right after the end of a
/// line, where the next line does not continue, is skipped, and the step
/// goes on at the start of the next line.
pub proof fn lemma_blank_line_skipped(s: ScanState, w: int)
    requires
        0 <= s.position < s.len(),
        s.chars[s.position] == '\n',
        s.prev_new_line,
        (s.depth + 2) * s.level <= usize::MAX,
        next_line_indented(s, s.position, w),
        !continues(s, w),
    ensures
        step(s) == step(ScanState { new_line: true, ..after_break(s, s.position) }),
{
    lemma_spaces_count(s.chars, s.position + 1, w);
}

/// A line indented between one and two steps deeper continues the line
/// before it: the line break hands out nothing and leaves the line's state as
/// it was.
pub proof fn lemma_deeper_line_continues(s: ScanState, w: int)
    requires
        0 <= s.position < s.len(),
        s.chars[s.position] == '\n',
        (s.depth + 2) * s.level <= usize::MAX,
        next_line_indented(s, s.position, w),
        continues(s, w),
    ensures
        step(s) == step(after_break(s, s.position)),
{
    lemma_spaces_count(s.chars, s.position + 1, w);
}

/// A comment runs to the end of its line, and its line break always ends
/// the line, whatever the next line's indentation: after a token it hands out
/// a `NewLine` at the first column of the next line; on a line of its own it
/// hands out nothing and the step goes on at the start of the next line.
pub proof fn lemma_comment_ends_line(s: ScanState, e: int)
    requires
        0 <= s.position,
        s.position + 2 <= e < s.len(),
        s.chars[s.position] == '/',
        s.chars[s.position + 1] == '/',
        s.chars[e] == '\n',
        forall|j: int| s.position + 2 <= j < e ==> s.chars[j] != '\n',
        0 <= s.depth,
        0 <= s.level,
        (s.depth + 2) * s.level <= usize::MAX,
    ensures
        !s.prev_new_line ==> step(s) == new_line_after(s, e),
        s.prev_new_line ==> step(s) == step(ScanState { new_line: true, ..after_break(s, e) }),
{
    lemma_first_newline_is(s.chars, s.position + 2, e);
    assert((s.depth + 1) * s.level >= 0) by (nonlinear_arith)
        requires
            0 <= s.depth,
            0 <= s.level,
    ;
    assert(starts_comment(s));
    assert(first_char(s) == ('\n', s.moved(e + 1 - s.position)));
    assert(!super::model::comment_to_end(s));
}

proof fn lemma_first_newline_is(chars: Seq<char>, from: int, e: int)
    requires
        0 <= from <= e < chars.len(),
        chars[e] == '\n',
        forall|j: int| from <= j < e ==> chars[j] != '\n',
    ensures
        super::model::first_newline(chars, from) == e,
    decreases e - from,
{
    if from < e {
        lemma_first_newline_is(chars, from + 1, e);
    }
}

} // verus!
