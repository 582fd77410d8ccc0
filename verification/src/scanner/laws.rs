//! What every step of the lexer keeps: the end of the input is final, each
//! step makes progress, and the depth of indentation moves with the layout
//! tokens.

use super::ends_input;
use super::model::{
    comment_to_end, first_char, lemma_colour_end_range,
    lemma_first_newline_range, lemma_number_end_range, lemma_quoted_text_range,
    lemma_word_end_range, lexeme, react, remaining, spaces_from, starts_comment, step, Outcome, Reaction,
    ScanState,
};
use crate::token::{Lexeme, Tok};
use vstd::prelude::*;

verus! {

/// How a step's outcome changes the depth of indentation: up one for an
/// indent, down one for a dedent, unchanged otherwise.
pub open spec fn layout_change(o: Outcome) -> int {
    match o {
        Outcome::Emit(_, Lexeme::Plain(Tok::Indent), _) => 1,
        Outcome::Emit(_, Lexeme::Plain(Tok::Dedent), _) => -1,
        _ => 0,
    }
}

/// A token that `lexeme` hands out is no layout token and no end of file;
/// where it skips the character, the state stays; otherwise the read
/// position does not move back and the depth stays.
proof fn lemma_lexeme_facts(loc: crate::location::Location, s: ScanState, c: char)
    requires
        0 <= s.position,
    ensures
        match lexeme(loc, s, c) {
            Reaction::Done(s2, o) => {
                &&& !ends_input(o)
                &&& layout_change(o) == 0
                &&& s2.position >= s.position
                &&& s2 == s.moved(s2.position - s.position)
                &&& (s.position <= s.len() ==> s2.position <= s.len() + 1)
                &&& (s.position > s.len() ==> s2.position <= s.position + 1)
            },
            Reaction::Again(s2) => s2 == s,
        },
{
    let p = s.position;
    lemma_number_end_range(s.chars, p, c == '.');
    lemma_quoted_text_range(s.chars, p, c, false);
    lemma_colour_end_range(s.chars, p);
    lemma_word_end_range(s.chars, p);
}

/// What `react` does to the read position and the depth of indentation.
pub(crate) proof fn lemma_react_facts(
    loc: crate::location::Location,
    s: ScanState,
    c: char,
    after_comment: bool,
)
    requires
        super::after_read(s),
    ensures
        match react(loc, s, c, after_comment) {
            Reaction::Done(s2, o) => !(o is Abort) ==> {
                &&& !ends_input(o)
                &&& s2.depth == s.depth + layout_change(o)
                &&& s2.position >= s.position - 1
                &&& (s2.position < s.position ==> layout_change(o) == -1)
                &&& s2.chars == s.chars
                &&& s2.level == s.level
                &&& s2.well_formed()
            },
            Reaction::Again(s2) => {
                &&& s2.position >= s.position
                &&& s2.depth == s.depth
                &&& s2.chars == s.chars
                &&& s2.level == s.level
                &&& s2.well_formed()
            },
        },
{
    if (s.depth + 2) * s.level <= usize::MAX && c != '\n' {
        let s2 = ScanState { prev_new_line: false, ..s };
        if s2.pending <= 0 && s2.new_line {
            let count = super::model::indent_width(s.chars, s.position - 1);
            super::model::lemma_indent_width_range(s.chars, s.position - 1);
            let s3 = if count > 0 {
                ScanState { position: s2.position + count - 1, ..s2 }
            } else {
                s2
            };
            lemma_lexeme_facts(loc, ScanState { new_line: false, ..s3 }, c);
        } else {
            lemma_lexeme_facts(loc, s2, c);
        }
    }
}

/// Once a step reports the end of the input, every open indentation is
/// closed and the input is used up.
pub proof fn lemma_end_state(s: ScanState)
    requires
        s.well_formed(),
        ends_input(step(s).1),
    ensures
        step(s).0.depth == 0,
        step(s).0.position >= s.len(),
        step(s).0.chars == s.chars,
        step(s).0.level == s.level,
        step(s).0.well_formed(),
    decreases remaining(s),
{
    if 0 <= s.position < s.len() && !comment_to_end(s) {
        let (c, s1) = first_char(s);
        lemma_first_newline_range(s.chars, s.position + 2);
        lemma_react_facts(s.loc(), s1, c, starts_comment(s));
        match react(s.loc(), s1, c, starts_comment(s)) {
            Reaction::Done(s2, o) => {},
            Reaction::Again(s2) => {
                lemma_end_state(s2);
            },
        }
    } else if 0 <= s.position < s.len() {
        lemma_first_newline_range(s.chars, s.position + 2);
    }
}

/// The facts of one step that does not end the input and completes.
proof fn lemma_step_facts(s: ScanState)
    requires
        s.well_formed(),
        !(step(s).1 is Abort),
        !ends_input(step(s).1),
    ensures
        step(s).0.well_formed(),
        step(s).0.chars == s.chars,
        step(s).0.level == s.level,
        step(s).0.depth == s.depth + layout_change(step(s).1),
        remaining(step(s).0) < remaining(s) || (remaining(step(s).0) == remaining(s)
            && step(s).0.depth < s.depth),
    decreases remaining(s),
{
    if 0 <= s.position < s.len() && !comment_to_end(s) {
        let (c, s1) = first_char(s);
        lemma_first_newline_range(s.chars, s.position + 2);
        lemma_react_facts(s.loc(), s1, c, starts_comment(s));
        match react(s.loc(), s1, c, starts_comment(s)) {
            Reaction::Done(s2, o) => {},
            Reaction::Again(s2) => {
                lemma_step_facts(s2);
            },
        }
    } else if 0 <= s.position < s.len() {
        lemma_first_newline_range(s.chars, s.position + 2);
    }
}

/// Every step that completes keeps the bounds of a reachable state.
pub proof fn lemma_step_keeps_bounds(s: ScanState)
    requires
        s.well_formed(),
        !(step(s).1 is Abort),
    ensures
        step(s).0.well_formed(),
        step(s).0.chars == s.chars,
        step(s).0.level == s.level,
{
    if ends_input(step(s).1) {
        lemma_end_state(s);
        lemma_end_depth(s);
    } else {
        lemma_step_facts(s);
    }
}

/// The outcomes of the steps from `s` up to the end of the input (which is
/// left out), or up to and including the first step that cannot complete.
pub open spec fn run(s: ScanState) -> Seq<Outcome>
    decreases remaining(s), s.depth,
    when s.well_formed()
{
    let (s2, o) = step(s);
    if o is Abort {
        seq![o]
    } else if ends_input(o) {
        Seq::empty()
    } else {
        proof {
            lemma_step_keeps_bounds(s);
            lemma_step_progress(s);
        }
        seq![o] + run(s2)
    }
}

/// Whether a run stopped at a step that could not complete.
pub open spec fn run_aborts(outs: Seq<Outcome>) -> bool {
    outs.len() > 0 && outs.last() is Abort
}

/// The total change of depth over a sequence of outcomes.
pub open spec fn layout_sum(outs: Seq<Outcome>) -> int
    decreases outs.len(),
{
    if outs.len() == 0 {
        0
    } else {
        layout_change(outs[0]) + layout_sum(outs.drop_first())
    }
}

/// A run that reaches the end of the input closes every indentation it
/// opens: from the start state, it hands out as many dedents as indents.
pub proof fn lemma_run_balanced(s: ScanState)
    requires
        s.well_formed(),
        !run_aborts(run(s)),
    ensures
        s.depth + layout_sum(run(s)) == 0,
    decreases remaining(s), s.depth,
{
    let (s2, o) = step(s);
    if o is Abort {
    } else if ends_input(o) {
        lemma_end_depth(s);
    } else {
        lemma_step_facts(s);
        assert((seq![o] + run(s2)).drop_first() =~= run(s2));
        if run(s2).len() > 0 {
            assert((seq![o] + run(s2)).last() == run(s2).last());
        }
        lemma_run_balanced(s2);
    }
}

/// Every prefix of a run closes no more indentation levels than were open
/// before it and opened within it: from the start state, no prefix holds
/// more dedents than indents.
pub proof fn lemma_run_prefix_depth(s: ScanState, k: int)
    requires
        s.well_formed(),
        0 <= k <= run(s).len(),
    ensures
        s.depth + layout_sum(run(s).take(k)) >= 0,
    decreases remaining(s), s.depth,
{
    let (s2, o) = step(s);
    if k == 0 {
        assert(run(s).take(k) =~= Seq::<Outcome>::empty());
    } else if o is Abort {
        assert(run(s).take(k) =~= seq![o]);
        assert(seq![o].drop_first() =~= Seq::<Outcome>::empty());
        assert(layout_sum(seq![o]) == layout_change(o) + layout_sum(Seq::<Outcome>::empty()));
    } else if ends_input(o) {
    } else {
        lemma_step_facts(s);
        let rest = run(s2);
        assert(run(s) == seq![o] + rest);
        assert((seq![o] + rest).take(k).drop_first() =~= rest.take(k - 1));
        assert((seq![o] + rest).take(k)[0] == o);
        lemma_run_prefix_depth(s2, k - 1);
        let x = run(s).take(k);
        assert(layout_sum(x) == layout_change(x[0]) + layout_sum(x.drop_first()));
        assert(s2.depth == s.depth + layout_change(o));
    }
}

/// At the end of the input the lexer hands out one dedent for each open
/// indentation level, all at the end location, and then the end of the
/// input.
pub proof fn lemma_end_of_input_closes(s: ScanState)
    requires
        s.well_formed(),
        s.position >= s.len(),
    ensures
        run(s) =~= Seq::new(
            s.depth as nat,
            |i: int| Outcome::Emit(s.loc(), Lexeme::Plain(Tok::Dedent), s.loc()),
        ),
    decreases s.depth,
{
    if s.depth > 0 {
        let s2 = ScanState { depth: s.depth - 1, ..s };
        assert(step(s) == (s2, Outcome::Emit(s.loc(), Lexeme::Plain(Tok::Dedent), s.loc())));
        lemma_step_keeps_bounds(s);
        lemma_end_of_input_closes(s2);
    }
}

/// Moving the read position one back undoes moving it one forward.
pub proof fn lemma_back_undoes_forward(s: ScanState)
    ensures
        s.moved(1).moved(-1) == s,
{
}

/// Once the lexer reports the end of the input, it reports it again on every
/// later call and stays as it is.
pub proof fn lemma_end_is_final(s: ScanState)
    requires
        s.well_formed(),
        ends_input(step(s).1),
    ensures
        step(step(s).0).0 == step(s).0,
        ends_input(step(step(s).0).1),
{
    lemma_end_state(s);
}

/// Every step that hands out something other than the end of the input
/// either reads further into the input or closes an indentation level
/// without reading back: the lexer always reaches the end.
pub proof fn lemma_step_progress(s: ScanState)
    requires
        s.well_formed(),
        !(step(s).1 is Abort),
        !ends_input(step(s).1),
    ensures
        remaining(step(s).0) < remaining(s) || (remaining(step(s).0) == remaining(s)
            && step(s).0.depth < s.depth),
{
    lemma_step_facts(s);
}

/// The depth of indentation rises by one with each `Indent`, falls by one with
/// each `Dedent`, and stays with every other outcome; at the end of the
/// input it is zero, so a run from the start hands out as many dedents as
/// indents.
pub proof fn lemma_depth_follows_layout(s: ScanState)
    requires
        s.well_formed(),
        !(step(s).1 is Abort),
    ensures
        step(s).0.depth == s.depth + layout_change(step(s).1),
        ends_input(step(s).1) ==> step(s).0.depth == 0 && s.depth == 0,
{
    if ends_input(step(s).1) {
        lemma_end_state(s);
        lemma_end_depth(s);
    } else {
        lemma_step_facts(s);
    }
}

/// The end of the input is handed out only at depth zero, and the step that
/// hands it out leaves the depth as it was.
proof fn lemma_end_depth(s: ScanState)
    requires
        s.well_formed(),
        ends_input(step(s).1),
    ensures
        s.depth == 0,
        step(s).0.depth == 0,
    decreases remaining(s),
{
    lemma_end_state(s);
    if 0 <= s.position < s.len() && !comment_to_end(s) {
        let (c, s1) = first_char(s);
        lemma_first_newline_range(s.chars, s.position + 2);
        lemma_react_facts(s.loc(), s1, c, starts_comment(s));
        match react(s.loc(), s1, c, starts_comment(s)) {
            Reaction::Done(s2, o) => {},
            Reaction::Again(s2) => {
                lemma_end_depth(s2);
            },
        }
    } else if 0 <= s.position < s.len() {
        lemma_first_newline_range(s.chars, s.position + 2);
    }
}

/// The state after `n` steps from `s`.
pub open spec fn steps_from(s: ScanState, n: nat) -> ScanState
    decreases n,
{
    if n == 0 {
        s
    } else {
        step(steps_from(s, (n - 1) as nat)).0
    }
}

/// `n + 1` steps from `s` are one step and then `n` more.
proof fn lemma_steps_shift(s: ScanState, n: nat)
    ensures
        steps_from(s, n + 1) == steps_from(step(s).0, n),
    decreases n,
{
    if n > 0 {
        lemma_steps_shift(s, (n - 1) as nat);
        assert(steps_from(s, n + 1) == step(steps_from(s, n)).0);
        assert(steps_from(step(s).0, n) == step(steps_from(step(s).0, (n - 1) as nat)).0);
    } else {
        assert(steps_from(s, 1) == step(steps_from(s, 0)).0);
    }
}

/// A run of `w` spaces, ended by another character, is an indentation of `w`.
proof fn lemma_spaces_count(chars: Seq<char>, p: int, w: int)
    requires
        0 <= p,
        0 <= w,
        p + w < chars.len(),
        forall|j: int| p <= j < p + w ==> chars[j] == ' ',
        chars[p + w] != ' ',
    ensures
        spaces_from(chars, p) == w,
    decreases w,
{
    if w > 0 {
        lemma_spaces_count(chars, p + 1, w - 1);
    }
}

/// While dedents are owed, each step hands out one and stays at the
/// character it read.
proof fn lemma_owed_dedents(r: ScanState, i: nat)
    requires
        !r.prev_new_line,
        0 <= r.position < r.len(),
        r.chars[r.position] != '\n',
        r.chars[r.position] != '/',
        i <= r.pending <= r.depth,
        0 <= r.level,
        (r.depth + 2) * r.level <= usize::MAX,
    ensures
        steps_from(r, i) == (ScanState { pending: r.pending - i, depth: r.depth - i, ..r }),
        i < r.pending ==> step(steps_from(r, i)).1 matches Outcome::Emit(
            _,
            Lexeme::Plain(Tok::Dedent),
            _,
        ),
    decreases i,
{
    if i > 0 {
        lemma_owed_dedents(r, (i - 1) as nat);
    }
    let t = steps_from(r, i);
    assert((t.depth + 2) * r.level <= (r.depth + 2) * r.level) by (nonlinear_arith)
        requires
            t.depth <= r.depth,
            0 <= r.level,
    ;
}

/// The first step of a line that returns to a shallower indentation hands
/// out a dedent and owes the others, standing at the last space (or at the
/// first character where there is no indentation).
proof fn lemma_first_dedent(s: ScanState, w: int)
    requires
        s.new_line,
        s.pending == 0,
        0 < s.level,
        0 <= s.position,
        0 <= w,
        s.position + w < s.len(),
        forall|j: int| s.position <= j < s.position + w ==> s.chars[j] == ' ',
        s.chars[s.position + w] != ' ',
        s.chars[s.position + w] != '\n',
        s.chars[s.position + w] != '/',
        w / s.level < s.depth,
        (s.depth + 2) * s.level <= usize::MAX,
    ensures
        step(s).1 matches Outcome::Emit(_, Lexeme::Plain(Tok::Dedent), _),
        step(s).0 == (ScanState {
            position: if w > 0 {
                s.position + w - 1
            } else {
                s.position
            },
            pending: s.depth - w / s.level - 1,
            depth: s.depth - 1,
            prev_new_line: false,
            new_line: false,
            ..s
        }),
        (step(s).0.depth + 2) * s.level <= usize::MAX,
{
    let p = s.position;
    let d = s.depth;
    let l = s.level;
    assert(w < d * l) by (nonlinear_arith)
        requires
            w / l < d,
            0 < l,
            0 <= w,
    ;
    assert(d * l < (d + 1) * l) by (nonlinear_arith)
        requires
            0 < l,
    ;
    assert((d - 1 + 2) * l <= (d + 2) * l) by (nonlinear_arith)
        requires
            0 < l,
    ;
    lemma_spaces_count(s.chars, p, w);
    assert(!super::model::starts_comment(s));
    assert(first_char(s) == (s.chars[p], s.moved(1)));
}

/// After the first of its dedents, the `i`-th step of such a line stands where
/// the first left it, with `i - 1` more dedents handed out.
proof fn lemma_after_first_dedent(s: ScanState, w: int, i: nat)
    requires
        s.new_line,
        s.pending == 0,
        0 < s.level,
        0 <= s.position,
        0 <= w,
        s.position + w < s.len(),
        forall|j: int| s.position <= j < s.position + w ==> s.chars[j] == ' ',
        s.chars[s.position + w] != ' ',
        s.chars[s.position + w] != '\n',
        s.chars[s.position + w] != '/',
        w / s.level < s.depth,
        (s.depth + 2) * s.level <= usize::MAX,
        1 <= i <= s.depth - w / s.level,
    ensures
        steps_from(s, i) == (ScanState {
            pending: step(s).0.pending - (i - 1),
            depth: step(s).0.depth - (i - 1),
            ..step(s).0
        }),
        i < s.depth - w / s.level ==> step(steps_from(s, i)).1 matches Outcome::Emit(
            _,
            Lexeme::Plain(Tok::Dedent),
            _,
        ),
{
    lemma_first_dedent(s, w);
    let r = step(s).0;
    lemma_steps_shift(s, (i - 1) as nat);
    assert(r.chars[r.position] == ' ' || r.position == s.position + w);
    lemma_owed_dedents(r, (i - 1) as nat);
}

/// A line that returns to a shallower indentation closes each deeper block
/// before its first token: where the first character of a line (after `w`
/// spaces) is read at depth `d` with `w / L < d` (`L` the indentation
/// width), the next `d - w / L` steps each hand out a `Dedent`, and after them
/// the lexer stands at depth `w / L` with no dedent owed, before the line's
/// first character (at the last space of its indentation).
pub proof fn lemma_line_closes_blocks(s: ScanState, w: int)
    requires
        s.new_line,
        s.pending == 0,
        0 < s.level,
        0 <= s.position,
        0 <= w,
        s.position + w < s.len(),
        forall|j: int| s.position <= j < s.position + w ==> s.chars[j] == ' ',
        s.chars[s.position + w] != ' ',
        s.chars[s.position + w] != '\n',
        s.chars[s.position + w] != '/',
        w / s.level < s.depth,
        (s.depth + 2) * s.level <= usize::MAX,
    ensures
        forall|i: nat|
            i < s.depth - w / s.level ==> step(#[trigger] steps_from(s, i)).1 matches Outcome::Emit(
                _,
                Lexeme::Plain(Tok::Dedent),
                _,
            ),
        steps_from(s, (s.depth - w / s.level) as nat).depth == w / s.level,
        steps_from(s, (s.depth - w / s.level) as nat).pending == 0,
        steps_from(s, (s.depth - w / s.level) as nat).position == if w > 0 {
            s.position + w - 1
        } else {
            s.position
        },
{
    let k = s.depth - w / s.level;
    assert forall|i: nat| i < k implies step(#[trigger] steps_from(s, i)).1 matches Outcome::Emit(
        _,
        Lexeme::Plain(Tok::Dedent),
        _,
    ) by {
        if i == 0 {
            lemma_first_dedent(s, w);
        } else {
            lemma_after_first_dedent(s, w, i);
        }
    }
    lemma_first_dedent(s, w);
    lemma_after_first_dedent(s, w, k as nat);
}

/// A line indented one step deeper than the current depth opens a block:
/// where the first character of a line follows `(d + 1) * L` spaces (`d` the
/// depth, `L` the indentation width), the step hands out an `Indent` from the
/// start of the line, raises the depth by one, and stands at the last of the
/// spaces.
pub proof fn lemma_deeper_line_opens_block(s: ScanState)
    requires
        s.new_line,
        s.pending == 0,
        0 < s.level,
        0 <= s.position,
        s.position + (s.depth + 1) * s.level < s.len(),
        forall|j: int|
            s.position <= j < s.position + (s.depth + 1) * s.level ==> s.chars[j] == ' ',
        s.chars[s.position + (s.depth + 1) * s.level] != ' ',
        0 <= s.depth,
        (s.depth + 2) * s.level <= usize::MAX,
    ensures
        step(s).1 matches Outcome::Emit(l, Lexeme::Plain(Tok::Indent), _) && l == s.loc(),
        step(s).0 == (ScanState {
            position: s.position + (s.depth + 1) * s.level,
            column: s.column + 1,
            depth: s.depth + 1,
            prev_new_line: false,
            new_line: false,
            ..s
        }),
{
    let w = (s.depth + 1) * s.level;
    assert(w >= s.level) by (nonlinear_arith)
        requires
            w == (s.depth + 1) * s.level,
            0 <= s.depth,
            0 < s.level,
    ;
    lemma_spaces_count(s.chars, s.position, w);
    assert(s.chars[s.position] == ' ');
    assert(!super::model::starts_comment(s));
    assert(first_char(s) == (s.chars[s.position], s.moved(1)));
}

/// A line at the current depth, or deeper than one step (but not a
/// continuation), opens and closes no block: the step skips its indentation
/// and reads on as in the middle of a line, from its first character (with
/// the location one column on from the line's start).
#[verifier::rlimit(60)]
pub proof fn lemma_line_at_depth_reads_on(s: ScanState, w: int)
    requires
        s.new_line,
        s.pending == 0,
        0 < s.level,
        0 <= s.position,
        0 <= w,
        s.position + w < s.len(),
        forall|j: int| s.position <= j < s.position + w ==> s.chars[j] == ' ',
        s.chars[s.position + w] != ' ',
        s.chars[s.position + w] != '\n',
        s.chars[s.position + w] != '/',
        0 <= s.depth <= w / s.level,
        w != (s.depth + 1) * s.level,
        (s.depth + 2) * s.level <= usize::MAX,
        !crate::text::numeric(' '),
        !crate::text::alphabetic(' '),
    ensures
        w > 0 ==> step(s) == step(
            ScanState {
                position: s.position + w,
                column: s.column + 1,
                new_line: false,
                prev_new_line: false,
                ..s
            },
        ),
        w == 0 ==> step(s) == step(ScanState { new_line: false, ..s }),
{
    let p = s.position;
    let c = s.chars[p];
    lemma_spaces_count(s.chars, p, w);
    assert(!super::model::starts_comment(s));
    assert(first_char(s) == (c, s.moved(1)));
    let s1 = s.moved(1);
    let s2 = ScanState { prev_new_line: false, ..s1 };
    let cfi = (s.depth + 1) * s.level;
    assert(react(s.loc(), s1, c, false) == super::model::line_start(s.loc(), s2, c, cfi));
    if w > 0 {
        let s3 = ScanState { position: p + w, new_line: false, ..s2 };
        assert(super::model::line_start(s.loc(), s2, c, cfi) == lexeme(s.loc(), s3, ' '));
        assert(lexeme(s.loc(), s3, ' ') == Reaction::Again(s3));
        assert(step(s) == step(s3));
    } else {
        let m = ScanState { new_line: false, ..s };
        assert(!super::model::starts_comment(m));
        assert(first_char(m) == (c, m.moved(1)));
        assert(super::model::line_start(s.loc(), s2, c, cfi) == lexeme(
            s.loc(),
            ScanState { new_line: false, ..s2 },
            c,
        ));
    }
}

} // verus!
