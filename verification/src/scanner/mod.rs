//! The indentation-aware lexer that turns NineScript source into the tokens
//! of the grammar: layout (`Indent`, `Dedent`, `NewLine`), keywords, names,
//! literals and operators, each with its start and end location.

pub mod laws;
pub mod lines;
pub mod literals;
pub mod model;
pub mod rows;

use laws::{lemma_step_keeps_bounds, lemma_step_progress, run, run_aborts};

use crate::error::{LexicalError, LexicalErrorType};
use crate::location::Location;
use crate::source::{
    expand_tabs, expand_tabs_within_limit, prepare_source, prepared_source, source_accepted,
};
use crate::text::{
    alphabetic, hex_digit, hex_value, is_alphabetic, is_alphanumeric, is_numeric, numeric,
    i64_from_text, same_chars, string_from_chars, utf8_length, utf8_width_of,
};
use crate::token::{lexeme_of, Lexeme, Tok};
use crate::types::RGBA;
use model::{
    all_hex, at_end, colour_end, comment_to_end, first_char, first_newline, hex_byte,
    indent_width, keyword, lemma_colour_end_range, lemma_first_newline_range,
    lemma_indent_width_range, lemma_number_end_range, lemma_quoted_text_range,
    lemma_word_end_range, lexeme, line_start, marker, number_end, quoted_text, react, remaining,
    resume_at, spaces_from, span, starts_comment, step, symbol, word_end, Outcome, Reaction,
    ScanState,
    MAX_SOURCE_CHARS,
};
use vstd::prelude::*;

verus! {

broadcast use {Location::lemma_at, Location::lemma_parts};

pub type Spanned = (Location, Tok, Location);

pub type LexResult = Result<Spanned, LexicalError>;

/// The indentation-aware lexer over a prepared source text.
pub struct Lexer {
    chars: Vec<char>,
    position: usize,
    location: Location,
    indention_level: usize,
    indention_now: usize,
    dedent_required: isize,
    prev_new_line: bool,
    new_line: bool,
}

impl View for Lexer {
    type V = ScanState;

    closed spec fn view(&self) -> ScanState {
        ScanState {
            chars: self.chars@,
            position: self.position as int,
            row: self.location.line() as int,
            column: self.location.col() as int,
            level: self.indention_level as int,
            depth: self.indention_now as int,
            pending: self.dedent_required as int,
            prev_new_line: self.prev_new_line,
            new_line: self.new_line,
        }
    }
}

/// Whether `r` is what the outcome `o` describes.
pub open spec fn reports(r: LexResult, o: Outcome) -> bool {
    match o {
        Outcome::Emit(l, m, e) => match r {
            Ok((l2, t, e2)) => l2 == l && e2 == e && lexeme_of(t) == m,
            Err(_) => false,
        },
        Outcome::Fail(err) => r == Err::<Spanned, LexicalError>(err),
        Outcome::Abort => false,
    }
}

/// Whether the outcome is the end of the input.
pub open spec fn ends_input(o: Outcome) -> bool {
    o matches Outcome::Emit(_, Lexeme::Plain(t), _) && t is EndOfFile
}

/// How a part of a step ended: with a result, by skipping the character and
/// starting over, or unable to complete.
enum Flow {
    Done(LexResult),
    Again,
    Abort,
}

/// Whether the exec flow `f`, leaving the lexer in state `after`, is what the
/// reaction `re` describes.
spec fn follows(f: Flow, after: ScanState, re: Reaction) -> bool {
    match re {
        Reaction::Done(s2, o) => if o is Abort {
            f is Abort
        } else {
            &&& after == s2
            &&& f matches Flow::Done(r)
            &&& reports(r, o)
        },
        Reaction::Again(s2) => f is Again && after == s2,
    }
}

/// The bounds on a state while the token that a character starts is scanned.
spec fn reading(s: ScanState) -> bool {
    &&& s.len() <= MAX_SOURCE_CHARS
    &&& 1 <= s.position <= 2 * s.len() + 1
    &&& 2 <= s.column <= s.position + 1
    &&& 1 <= s.row <= usize::MAX
    &&& 0 <= s.level <= usize::MAX
    &&& 0 <= s.depth <= usize::MAX
    &&& 0 <= s.pending <= usize::MAX / 2
}

/// The bounds on the state after the first character of a step was read.
pub(crate) open spec fn after_read(s: ScanState) -> bool {
    &&& s.len() <= MAX_SOURCE_CHARS
    &&& 1 <= s.position <= s.len()
    &&& 2 <= s.column <= s.position + 1
    &&& 1 <= s.row <= s.position
    &&& 0 <= s.level <= usize::MAX
    &&& 0 <= s.depth <= s.position - 1
    &&& 0 <= s.pending <= s.depth
}

/// Text made of hexadecimal digits is ASCII: one byte per character.
pub(crate) proof fn lemma_hex_text_is_ascii(d: Seq<char>)
    requires
        all_hex(d),
    ensures
        utf8_length(d) == d.len(),
    decreases d.len(),
{
    if d.len() > 0 {
        assert(hex_value(d[d.len() - 1]) is Some);
        assert(all_hex(d.drop_last())) by {
            assert forall|i: int| 0 <= i < d.drop_last().len() implies (#[trigger] hex_value(
                d.drop_last()[i],
            )) is Some by {
                assert(hex_value(d[i]) is Some);
            }
        }
        lemma_hex_text_is_ascii(d.drop_last());
    }
}

impl Lexer {
    /// The lexer keeps the bounds of a reachable state.
    pub open spec fn wf(&self) -> bool {
        self@.well_formed()
    }

    fn has_more_tokens(&self) -> (r: bool)
        ensures
            r == (self@.position < self@.len()),
    {
        self.position < self.chars.len()
    }

    fn go_right(&mut self)
        requires
            old(self)@.position < usize::MAX,
            old(self)@.column < usize::MAX,
        ensures
            final(self)@ == old(self)@.moved(1),
    {
        self.position += 1;
        self.location.go_right();
    }

    fn go_left(&mut self)
        requires
            old(self)@.position > 0,
            old(self)@.column > 0,
        ensures
            final(self)@ == old(self)@.moved(-1),
    {
        self.position -= 1;
        self.location.go_left();
    }

    /// Reads the character at the read position, if there is one, and moves
    /// one to the right in either case.
    fn set_next_char(&mut self) -> (r: Option<char>)
        requires
            old(self)@.position < usize::MAX,
            old(self)@.column < usize::MAX,
        ensures
            final(self)@ == old(self)@.moved(1),
            r == (if 0 <= old(self)@.position < old(self)@.len() {
                Some(old(self)@.chars[old(self)@.position])
            } else {
                None
            }),
    {
        let c = if self.position < self.chars.len() {
            Some(self.chars[self.position])
        } else {
            None
        };
        self.go_right();
        c
    }

    fn get_marker(&self, id: &[char]) -> (r: Option<Tok>)
        ensures
            r == marker(id@),
    {
        if same_chars(id, &['f', 'u', 'n', 'c', 't', 'i', 'o', 'n']) {
            Some(Tok::FunctionMarker)
        } else if same_chars(id, &['u', 'n', 'p', 'a', 'c', 'k', '_', 't', 'u', 'p', 'l', 'e']) {
            Some(Tok::UnpackTupleMarker)
        } else {
            None
        }
    }

    fn get_keyword(&self, id: &[char]) -> (r: Option<Tok>)
        ensures
            r == keyword(id@),
    {
        if same_chars(id, &['i', 'f']) {
            Some(Tok::If)
        } else if same_chars(id, &['e', 'l', 's', 'e']) {
            Some(Tok::Else)
        } else if same_chars(id, &['s', 'e', 'r', 'i', 'e', 's']) {
            Some(Tok::Series)
        } else if same_chars(id, &['c', 'o', 'n', 's', 't']) {
            Some(Tok::Const)
        } else if same_chars(id, &['t', 'y', 'p', 'e']) {
            Some(Tok::Type)
        } else if same_chars(id, &['e', 'n', 'u', 'm']) {
            Some(Tok::Enum)
        } else if same_chars(id, &['v', 'a', 'r']) {
            Some(Tok::Var)
        } else if same_chars(id, &['f', 'o', 'r']) {
            Some(Tok::For)
        } else if same_chars(id, &['t', 'o']) {
            Some(Tok::To)
        } else if same_chars(id, &['i', 'n']) {
            Some(Tok::In)
        } else if same_chars(id, &['b', 'y']) {
            Some(Tok::By)
        } else if same_chars(id, &['w', 'h', 'i', 'l', 'e']) {
            Some(Tok::While)
        } else if same_chars(id, &['s', 'w', 'i', 't', 'c', 'h']) {
            Some(Tok::Switch)
        } else if same_chars(id, &['i', 'm', 'p', 'o', 'r', 't']) {
            Some(Tok::Import)
        } else if same_chars(id, &['n', 'o', 't']) {
            Some(Tok::Not)
        } else if same_chars(id, &['a', 'n', 'd']) {
            Some(Tok::And)
        } else if same_chars(id, &['o', 'r']) {
            Some(Tok::Or)
        } else if same_chars(id, &['t', 'r', 'u', 'e']) {
            Some(Tok::True)
        } else if same_chars(id, &['f', 'a', 'l', 's', 'e']) {
            Some(Tok::False)
        } else {
            None
        }
    }

    /// Consumes the next character if it is `x`.
    fn take_if(&mut self, x: char) -> (r: bool)
        requires
            old(self)@.position < usize::MAX,
            1 <= old(self)@.column < usize::MAX,
        ensures
            r == (0 <= old(self)@.position < old(self)@.len() && old(self)@.chars[old(
                self,
            )@.position] == x),
            final(self)@ == (if r {
                old(self)@.moved(1)
            } else {
                old(self)@
            }),
    {
        match self.set_next_char() {
            Some(ch) => {
                if ch == x {
                    return true;
                }
            },
            None => {},
        }
        self.go_left();
        false
    }

    /// A number: digits with at most one decimal point.
    fn scan_number(&mut self, loc_left: Location, c: char) -> (r: Flow)
        requires
            reading(old(self)@),
            numeric(c) || c == '.',
        ensures
            old(self)@.position <= final(self)@.position,
            final(self)@.position <= (if old(self)@.position <= old(self)@.len() {
                old(self)@.len() + 1
            } else {
                old(self)@.position + 1
            }),
            final(self)@ == old(self)@.moved(final(self)@.position - old(self)@.position),
            follows(r, final(self)@, lexeme(loc_left, old(self)@, c)),
    {
        let ghost s = self@;
        let ghost p = s.position;
        let mut is_float = c == '.';
        let mut stack: Vec<char> = Vec::new();
        stack.push(c);
        assert(stack@ =~= seq![c] + span(s.chars, p, p));
        loop
            invariant_except_break
                s == old(self)@,
                reading(s),
                numeric(c) || c == '.',
                p <= self@.position,
                self@.position <= s.len() || self@.position == p,
                self@ == s.moved(self@.position - p),
                number_end(s.chars, self@.position, is_float) == number_end(s.chars, p, c == '.'),
                stack@ == seq![c] + span(s.chars, p, self@.position),
                is_float == stack@.contains('.'),
            ensures
                number_end(s.chars, p, c == '.').1 == false,
                self@ == s.moved(resume_at(s.len(), number_end(s.chars, p, c == '.').0) - p),
                stack@ == seq![c] + span(s.chars, p, number_end(s.chars, p, c == '.').0),
                is_float == stack@.contains('.'),
            decreases (if self@.position <= s.len() {
                s.len() + 1 - self@.position
            } else {
                0
            }),
        {
            let ghost q = self@.position;
            let ch = match self.set_next_char() {
                Some(v) => v,
                None => {
                    assert(span(s.chars, p, q) =~= span(s.chars, p, number_end(s.chars, q, is_float).0));
                    break;
                },
            };
            if ch == '.' {
                if is_float {
                    return Flow::Done(
                        Err(LexicalError { error: LexicalErrorType::NumberError, location: loc_left }),
                    );
                }
                is_float = true;
            } else if !is_numeric(ch) {
                self.go_left();
                break;
            }
            let ghost before = stack@;
            stack.push(ch);
            assert(span(s.chars, p, q + 1) =~= span(s.chars, p, q).push(ch));
            assert(stack@ =~= seq![c] + span(s.chars, p, q + 1));
            assert(stack@[stack@.len() - 1] == ch);
            assert(before.contains('.') ==> stack@.contains('.')) by {
                if before.contains('.') {
                    let i = choose|i: int| 0 <= i < before.len() && before[i] == '.';
                    assert(stack@[i] == '.');
                }
            }
            assert(stack@.contains('.') ==> (before.contains('.') || ch == '.'));
        }
        proof {
            lemma_number_end_range(s.chars, p, c == '.');
        }
        if is_float {
            let literal = string_from_chars(&stack);
            Flow::Done(Ok((loc_left, Tok::Float { literal }, self.location)))
        } else {
            match i64_from_text(stack.as_slice()) {
                Some(value) => Flow::Done(Ok((loc_left, Tok::Int { value }, self.location))),
                None => Flow::Abort,
            }
        }
    }

    /// A string between `c` quotes; a backslash keeps the character after it.
    fn scan_quoted(&mut self, loc_left: Location, c: char) -> (r: Flow)
        requires
            reading(old(self)@),
            c == '"' || c == '\'',
            !numeric(c),
        ensures
            old(self)@.position <= final(self)@.position,
            final(self)@.position <= (if old(self)@.position <= old(self)@.len() {
                old(self)@.len() + 1
            } else {
                old(self)@.position + 1
            }),
            final(self)@ == old(self)@.moved(final(self)@.position - old(self)@.position),
            follows(r, final(self)@, lexeme(loc_left, old(self)@, c)),
    {
        let ghost s = self@;
        let ghost p = s.position;
        let mut stack: Vec<char> = Vec::new();
        let mut prev_was_backslash = false;
        assert(stack@ + quoted_text(s.chars, p, c, false).0 =~= quoted_text(s.chars, p, c, false).0);
        loop
            invariant_except_break
                s == old(self)@,
                reading(s),
                c == '"' || c == '\'',
                !numeric(c),
                p <= self@.position,
                self@.position <= s.len() || self@.position == p,
                self@ == s.moved(self@.position - p),
                stack@ + quoted_text(s.chars, self@.position, c, prev_was_backslash).0 == quoted_text(
                    s.chars,
                    p,
                    c,
                    false,
                ).0,
                quoted_text(s.chars, self@.position, c, prev_was_backslash).1 == quoted_text(
                    s.chars,
                    p,
                    c,
                    false,
                ).1,
            ensures
                stack@ == quoted_text(s.chars, p, c, false).0,
                self@ == s.moved(quoted_text(s.chars, p, c, false).1 - p),
            decreases (if self@.position <= s.len() {
                s.len() + 1 - self@.position
            } else {
                0
            }),
        {
            let ghost q = self@.position;
            let ghost esc = prev_was_backslash;
            let ch = match self.set_next_char() {
                Some(v) => v,
                None => {
                    assert(stack@ =~= stack@ + quoted_text(s.chars, q, c, esc).0);
                    break;
                },
            };
            if prev_was_backslash {
                prev_was_backslash = false;
            } else if ch == '\\' {
                prev_was_backslash = true;
                continue;
            } else if ch == c {
                assert(stack@ =~= stack@ + quoted_text(s.chars, q, c, esc).0);
                break;
            }
            let ghost before = stack@;
            stack.push(ch);
            assert(before + quoted_text(s.chars, q, c, esc).0 =~= stack@ + quoted_text(
                s.chars,
                q + 1,
                c,
                false,
            ).0);
        }
        proof {
            lemma_quoted_text_range(s.chars, p, c, false);
        }
        let value = string_from_chars(&stack);
        Flow::Done(Ok((loc_left, Tok::String { value }, self.location)))
    }

    /// The number of bytes of the UTF-8 encoding of `d`.
    fn utf8_len(d: &Vec<char>) -> (r: usize)
        requires
            d@.len() <= usize::MAX / 4,
        ensures
            r == utf8_length(d@),
    {
        let mut n: usize = 0;
        let mut i: usize = 0;
        while i < d.len()
            invariant
                i <= d@.len() <= usize::MAX / 4,
                n == utf8_length(d@.take(i as int)),
                n <= 4 * i,
            decreases d@.len() - i,
        {
            assert(d@.take(i + 1).drop_last() =~= d@.take(i as int));
            n = n + utf8_width_of(d[i]);
            i = i + 1;
        }
        assert(d@.take(i as int) =~= d@);
        n
    }

    /// Whether every character of `d` is a hexadecimal digit.
    fn all_hex_digits(d: &Vec<char>) -> (r: bool)
        ensures
            r == all_hex(d@),
    {
        let mut i: usize = 0;
        while i < d.len()
            invariant
                i <= d@.len(),
                forall|j: int| 0 <= j < i ==> (#[trigger] hex_value(d@[j])) is Some,
            decreases d@.len() - i,
        {
            if hex_digit(d[i]).is_none() {
                return false;
            }
            i = i + 1;
        }
        true
    }

    /// The byte written by the two hexadecimal digits at index `i`.
    fn hex_pair(d: &Vec<char>, i: usize) -> (r: u8)
        requires
            all_hex(d@),
            i + 1 < d.len(),
        ensures
            r == hex_byte(d@, i as int),
    {
        let hi = hex_digit(d[i]).unwrap();
        let lo = hex_digit(d[i + 1]).unwrap();
        hi * 16 + lo
    }

    /// A colour `#rrggbb` or `#rrggbbaa`.
    fn scan_colour(&mut self, loc_left: Location) -> (r: Flow)
        requires
            reading(old(self)@),
            !numeric('#'),
        ensures
            old(self)@.position <= final(self)@.position,
            final(self)@.position <= (if old(self)@.position <= old(self)@.len() {
                old(self)@.len() + 1
            } else {
                old(self)@.position + 1
            }),
            final(self)@ == old(self)@.moved(final(self)@.position - old(self)@.position),
            follows(r, final(self)@, lexeme(loc_left, old(self)@, '#')),
    {
        let ghost s = self@;
        let ghost p = s.position;
        let mut stack: Vec<char> = Vec::new();
        assert(stack@ =~= span(s.chars, p, p));
        loop
            invariant_except_break
                s == old(self)@,
                reading(s),
                !numeric('#'),
                p <= self@.position,
                self@.position <= s.len() || self@.position == p,
                self@ == s.moved(self@.position - p),
                colour_end(s.chars, self@.position) == colour_end(s.chars, p),
                stack@ == span(s.chars, p, self@.position),
            ensures
                colour_end(s.chars, p).1 == false,
                self@ == s.moved(resume_at(s.len(), colour_end(s.chars, p).0) - p),
                stack@ == span(s.chars, p, colour_end(s.chars, p).0),
            decreases (if self@.position <= s.len() {
                s.len() + 1 - self@.position
            } else {
                0
            }),
        {
            let ghost q = self@.position;
            let ch = match self.set_next_char() {
                Some(v) => v,
                None => break,
            };
            let range_af = ch >= 'a' && ch <= 'f';
            let range_af_up = ch >= 'A' && ch <= 'F';
            if !is_numeric(ch) && !range_af && !range_af_up {
                if is_alphabetic(ch) {
                    return Flow::Done(
                        Err(
                            LexicalError {
                                location: self.location,
                                error: LexicalErrorType::HashColorError,
                            },
                        ),
                    );
                }
                self.go_left();
                break;
            }
            stack.push(ch);
            assert(stack@ =~= span(s.chars, p, q + 1));
        }
        proof {
            crate::text::lemma_utf8_length_bounds(stack@);
            lemma_colour_end_range(s.chars, p);
        }
        let l = Self::utf8_len(&stack);
        if l != 6 && l != 8 {
            return Flow::Done(
                Err(LexicalError { location: self.location, error: LexicalErrorType::HashColorError }),
            );
        }
        if !Self::all_hex_digits(&stack) {
            return Flow::Abort;
        }
        proof {
            lemma_hex_text_is_ascii(stack@);
        }
        let red = Self::hex_pair(&stack, 0);
        let green = Self::hex_pair(&stack, 2);
        let blue = Self::hex_pair(&stack, 4);
        let alpha = if l == 8 {
            Self::hex_pair(&stack, 6)
        } else {
            255
        };
        Flow::Done(Ok((loc_left, Tok::HashColor(RGBA(red, green, blue, alpha)), self.location)))
    }

    /// A name: a keyword, a marker after a NUL, or an identifier.
    fn scan_word(&mut self, loc_left: Location, c: char) -> (r: Flow)
        requires
            reading(old(self)@),
            alphabetic(c) || c == '_' || c == '\0',
            !(numeric(c) || c == '.'),
            !(c == '"' || c == '\'' || c == '#'),
        ensures
            old(self)@.position <= final(self)@.position,
            final(self)@.position <= (if old(self)@.position <= old(self)@.len() {
                old(self)@.len() + 1
            } else {
                old(self)@.position + 1
            }),
            final(self)@ == old(self)@.moved(final(self)@.position - old(self)@.position),
            follows(r, final(self)@, lexeme(loc_left, old(self)@, c)),
    {
        let ghost s = self@;
        let ghost p = s.position;
        let mut stack: Vec<char> = Vec::new();
        stack.push(c);
        assert(stack@ =~= seq![c] + span(s.chars, p, p));
        loop
            invariant_except_break
                s == old(self)@,
                reading(s),
                p <= self@.position,
                self@.position <= s.len() || self@.position == p,
                self@ == s.moved(self@.position - p),
                word_end(s.chars, self@.position) == word_end(s.chars, p),
                stack@ == seq![c] + span(s.chars, p, self@.position),
            ensures
                self@ == s.moved(resume_at(s.len(), word_end(s.chars, p)) - p),
                stack@ == seq![c] + span(s.chars, p, word_end(s.chars, p)),
            decreases (if self@.position <= s.len() {
                s.len() + 1 - self@.position
            } else {
                0
            }),
        {
            let ghost q = self@.position;
            let ch = match self.set_next_char() {
                Some(v) => v,
                None => break,
            };
            if !is_alphanumeric(ch) && ch != '_' {
                self.go_left();
                break;
            }
            stack.push(ch);
            assert(span(s.chars, p, q + 1) =~= span(s.chars, p, q).push(ch));
            assert(stack@ =~= seq![c] + span(s.chars, p, q + 1));
        }
        proof {
            lemma_word_end_range(s.chars, p);
        }
        let ghost text = stack@;
        if c == '\0' {
            stack.remove(0);
            assert(stack@ =~= text.drop_first());
            if let Some(v) = self.get_marker(stack.as_slice()) {
                return Flow::Done(Ok((loc_left, v, self.location)));
            }
        }
        if let Some(v) = self.get_keyword(stack.as_slice()) {
            return Flow::Done(Ok((loc_left, v, self.location)));
        }
        let name = string_from_chars(&stack);
        Flow::Done(Ok((loc_left, Tok::Identifier { name }, self.location)))
    }

    /// An operator or punctuation; any other character is skipped.
    fn scan_symbol(&mut self, loc_left: Location, c: char) -> (r: Flow)
        requires
            reading(old(self)@),
        ensures
            old(self)@.position <= final(self)@.position,
            final(self)@.position <= (if old(self)@.position <= old(self)@.len() {
                old(self)@.len() + 1
            } else {
                old(self)@.position + 1
            }),
            final(self)@ == old(self)@.moved(final(self)@.position - old(self)@.position),
            ({
                let s = old(self)@;
                let next = if s.position < s.len() {
                    Some(s.chars[s.position])
                } else {
                    None
                };
                match symbol(c, next) {
                    Some((t, k)) => final(self)@ == s.moved(k) && r == Flow::Done(
                        Ok((loc_left, t, final(self).location)),
                    ),
                    None => r is Again && final(self)@ == s,
                }
            }),
    {
        let symbol = match c {
            '+' => if self.take_if('=') {
                Tok::EqualAdd
            } else {
                Tok::Plus
            },
            '-' => if self.take_if('=') {
                Tok::EqualSub
            } else {
                Tok::Minus
            },
            '/' => if self.take_if('=') {
                Tok::EqualDiv
            } else {
                Tok::Slash
            },
            '*' => if self.take_if('=') {
                Tok::EqualMul
            } else {
                Tok::Asterisk
            },
            '\\' => Tok::Backslash,
            '?' => Tok::QuestionMark,
            '!' => if self.take_if('=') {
                Tok::NotEqual
            } else {
                Tok::ExclamationMark
            },
            '=' => if self.take_if('=') {
                Tok::DoubleEqual
            } else if self.take_if('>') {
                Tok::Follow
            } else {
                Tok::Equal
            },
            '<' => if self.take_if('=') {
                Tok::Lte
            } else {
                Tok::Less
            },
            '>' => if self.take_if('=') {
                Tok::Gte
            } else {
                Tok::Greater
            },
            '(' => Tok::OpenParenthesis,
            ')' => Tok::CloseParenthesis,
            '[' => Tok::OpenBrackets,
            ']' => Tok::CloseBrackets,
            '@' => Tok::At,
            '#' => Tok::Hash,
            '.' => Tok::Dot,
            ',' => Tok::Comma,
            '%' => Tok::Mod,
            ':' => if self.take_if('=') {
                Tok::ColonEqual
            } else {
                Tok::Colon
            },
            ';' => Tok::Semicolon,
            _ => return Flow::Again,
        };
        Flow::Done(Ok((loc_left, symbol, self.location)))
    }

    /// The token that starts with the character `c` just read.
    fn scan_lexeme(&mut self, loc_left: Location, c: char) -> (r: Flow)
        requires
            reading(old(self)@),
        ensures
            old(self)@.position <= final(self)@.position,
            final(self)@.position <= (if old(self)@.position <= old(self)@.len() {
                old(self)@.len() + 1
            } else {
                old(self)@.position + 1
            }),
            final(self)@ == old(self)@.moved(final(self)@.position - old(self)@.position),
            follows(r, final(self)@, lexeme(loc_left, old(self)@, c)),
    {
        if is_numeric(c) || c == '.' {
            return self.scan_number(loc_left, c);
        }
        if c == '"' || c == '\'' {
            return self.scan_quoted(loc_left, c);
        }
        if c == '#' {
            return self.scan_colour(loc_left);
        }
        if is_alphabetic(c) || c == '_' || c == '\0' {
            return self.scan_word(loc_left, c);
        }
        self.scan_symbol(loc_left, c)
    }

    /// The indentation measured at index `from`.
    fn indent_at(&self, from: usize) -> (r: usize)
        requires
            from <= self@.len(),
        ensures
            r == indent_width(self@.chars, from as int),
            r <= self@.len(),
    {
        let mut i = from;
        while i < self.chars.len() && self.chars[i] == ' '
            invariant
                from <= i <= self@.len(),
                spaces_from(self@.chars, from as int) == (i - from) + spaces_from(
                    self@.chars,
                    i as int,
                ),
            decreases self@.len() - i,
        {
            i += 1;
        }
        if i < self.chars.len() {
            i - from
        } else {
            self.chars.len()
        }
    }

    /// The first character `c` of a line was read: the indentation tokens it
    /// makes, or else the token it starts.
    fn at_line_start(&mut self, loc_left: Location, c: char, count_for_indent: usize) -> (r: Flow)
        requires
            after_read(old(self)@),
            old(self)@.pending == 0,
            !old(self)@.prev_new_line,
            count_for_indent == (old(self)@.depth + 1) * old(self)@.level,
        ensures
            follows(r, final(self)@, line_start(loc_left, old(self)@, c, count_for_indent as int)),
            !(r is Abort) ==> final(self)@.well_formed(),
            r is Again ==> final(self)@.position >= old(self)@.position,
            final(self)@.chars == old(self)@.chars,
            final(self)@.level == old(self)@.level,
    {
        let ghost s = self@;
        let count = self.indent_at(self.position - 1);
        proof {
            lemma_indent_width_range(s.chars, s.position - 1);
            if s.level == 0 {
                assert((s.depth + 1) * s.level == 0) by (nonlinear_arith)
                    requires
                        s.level == 0,
                ;
            }
        }
        if count > 0 {
            self.position += count - 1;
        }
        if count_for_indent == count {
            proof {
                if s.level > 0 {
                    assert((s.depth + 1) * s.level >= s.depth + 1) by (nonlinear_arith)
                        requires
                            s.level >= 1,
                            s.depth >= 0,
                    ;
                } else {
                    assert((s.depth + 1) * s.level == 0) by (nonlinear_arith)
                        requires
                            s.level == 0,
                    ;
                }
            }
            self.indention_now += 1;
            self.new_line = false;
            return Flow::Done(Ok((loc_left, Tok::Indent, self.location)));
        }
        let indention_level = if count == 0 {
            0
        } else {
            if self.indention_level == 0 {
                return Flow::Abort;
            }
            count / self.indention_level
        };
        assert(indention_level <= count);
        assert(usize::MAX / 8 < isize::MAX);
        assert(self.indention_now < usize::MAX / 8);
        let diff = (indention_level as isize) - (self.indention_now as isize);
        if diff < 0 {
            self.dedent_required = -diff - 1;
            self.new_line = false;
            self.go_left();
            self.indention_now -= 1;
            return Flow::Done(Ok((loc_left, Tok::Dedent, self.location)));
        }
        self.new_line = false;
        self.scan_lexeme(loc_left, c)
    }

    /// What follows the reading of the character `c` at `loc_left`: line
    /// breaks, indentation, and the token that `c` starts. A line break that
    /// closes a comment (`after_comment`) has no indentation after it.
    fn after_char(&mut self, loc_left: Location, c: char, after_comment: bool) -> (r: Flow)
        requires
            after_read(old(self)@),
        ensures
            follows(r, final(self)@, react(loc_left, old(self)@, c, after_comment)),
            !(r is Abort) ==> final(self)@.well_formed(),
            r is Again ==> final(self)@.position >= old(self)@.position,
            final(self)@.chars == old(self)@.chars,
            final(self)@.level == old(self)@.level,
    {
        let ghost s = self@;
        let cfi2 = match (self.indention_now + 2).checked_mul(self.indention_level) {
            Some(v) => v,
            None => return Flow::Abort,
        };
        assert((s.depth + 1) * s.level <= (s.depth + 2) * s.level) by (nonlinear_arith)
            requires
                0 <= s.level,
                0 <= s.depth,
        ;
        let count_for_indent = (self.indention_now + 1) * self.indention_level;
        let count_for_indent2 = cfi2;

        // new line:
        if c == '\n' {
            self.location.newline();
            let count = if after_comment {
                0
            } else {
                self.indent_at(self.position)
            };
            if count > count_for_indent && count < count_for_indent2 {
                return Flow::Again;
            }
            self.new_line = true;
            if self.prev_new_line {
                return Flow::Again;
            }
            self.prev_new_line = true;
            return Flow::Done(Ok((self.location, Tok::NewLine, self.location)));
        }
        self.prev_new_line = false;

        // indentation:
        if self.dedent_required > 0 {
            self.dedent_required -= 1;
            self.indention_now -= 1;
            self.go_left();
            return Flow::Done(Ok((loc_left, Tok::Dedent, self.location)));
        }
        if self.new_line {
            return self.at_line_start(loc_left, c, count_for_indent);
        }
        self.scan_lexeme(loc_left, c)
    }

    /// A lexer over `src`, in which each tab counts as `indention_level`
    /// spaces and each indentation step is `indention_level` spaces wide.
    pub fn new(src: &str, indention_level: usize) -> (r: Self)
        requires
            source_accepted(src@, indention_level as nat),
        ensures
            r.wf(),
            r@ == ScanState::start(
                prepared_source(src@, indention_level as nat),
                indention_level as int,
            ),
    {
        match Self::try_new(src, indention_level) {
            Some(lexer) => lexer,
            None => vstd::pervasive::unreached(),
        }
    }

    /// A lexer over `src` as `new` builds it, or `None` where `new` cannot
    /// build one: a rewriting pattern does not compile, or the prepared
    /// source is longer than the lexer accepts.
    pub fn try_new(src: &str, indention_level: usize) -> (r: Option<Self>)
        ensures
            r is Some <==> source_accepted(src@, indention_level as nat),
            r matches Some(lexer) ==> {
                &&& lexer.wf()
                &&& lexer@ == ScanState::start(
                    prepared_source(src@, indention_level as nat),
                    indention_level as int,
                )
            },
    {
        match prepare_source(src, indention_level) {
            Some(chars) => Some(Self::starting(chars, indention_level)),
            None => None,
        }
    }

    /// A lexer over `text` in which the markers are already in place: tabs
    /// are widened to `indention_level` spaces as `new` does, nothing is
    /// rewritten; `None` where the widened text is longer than the lexer
    /// accepts.
    pub fn from_marked(text: &str, indention_level: usize) -> (r: Option<Self>)
        ensures
            r is Some <==> expand_tabs(text@, indention_level as nat).len() <= MAX_SOURCE_CHARS,
            r matches Some(lexer) ==> {
                &&& lexer.wf()
                &&& lexer@ == ScanState::start(
                    expand_tabs(text@, indention_level as nat),
                    indention_level as int,
                )
            },
    {
        match expand_tabs_within_limit(text, indention_level) {
            Some(chars) => Some(Self::starting(chars, indention_level)),
            None => None,
        }
    }

    /// The lexer at the start of `chars`.
    fn starting(chars: Vec<char>, indention_level: usize) -> (r: Self)
        requires
            chars@.len() <= MAX_SOURCE_CHARS,
        ensures
            r.wf(),
            r@ == ScanState::start(chars@, indention_level as int),
    {
        Self {
            chars,
            position: 0,
            location: Location::new(1, 1),
            indention_level,
            new_line: true,
            indention_now: 0,
            dedent_required: 0,
            prev_new_line: true,
        }
    }

    /// The next token with its start and end location, or a lexical error;
    /// `None` once the input is used up and every open indentation closed.
    pub fn next(&mut self) -> (r: Option<LexResult>)
        requires
            old(self).wf(),
            !(step(old(self)@).1 is Abort),
        ensures
            final(self).wf(),
            final(self)@ == step(old(self)@).0,
            ends_input(step(old(self)@).1) ==> r is None,
            !ends_input(step(old(self)@).1) ==> (r matches Some(x) && reports(
                x,
                step(old(self)@).1,
            )),
    {
        match self.inner_next() {
            Some(Ok((_, Tok::EndOfFile, _))) => None,
            Some(r) => Some(r),
            None => vstd::pervasive::unreached(),
        }
    }

    /// `next` where the step completes; where it cannot, `None`, with the
    /// lexer left as it was.
    pub fn try_next(&mut self) -> (r: Option<Option<LexResult>>)
        requires
            old(self).wf(),
        ensures
            final(self).wf(),
            r is None <==> step(old(self)@).1 is Abort,
            r is None ==> final(self)@ == old(self)@,
            r matches Some(t) ==> {
                &&& final(self)@ == step(old(self)@).0
                &&& ends_input(step(old(self)@).1) ==> t is None
                &&& !ends_input(step(old(self)@).1) ==> (t matches Some(x) && reports(
                    x,
                    step(old(self)@).1,
                ))
            },
    {
        let position = self.position;
        let location = self.location;
        let indention_now = self.indention_now;
        let dedent_required = self.dedent_required;
        let prev_new_line = self.prev_new_line;
        let new_line = self.new_line;
        match self.inner_next() {
            Some(Ok((_, Tok::EndOfFile, _))) => Some(None),
            Some(r) => Some(Some(r)),
            None => {
                self.position = position;
                self.location = location;
                self.indention_now = indention_now;
                self.dedent_required = dedent_required;
                self.prev_new_line = prev_new_line;
                self.new_line = new_line;
                None
            },
        }
    }

    /// Every token up to the end of the input, in order; `None` where a step
    /// cannot complete before the end.
    pub fn collect_tokens(&mut self) -> (r: Option<Vec<LexResult>>)
        requires
            old(self).wf(),
        ensures
            final(self).wf(),
            r is None <==> run_aborts(run(old(self)@)),
            r matches Some(v) ==> {
                &&& v@.len() == run(old(self)@).len()
                &&& forall|i: int| 0 <= i < v@.len() ==> reports(#[trigger] v@[i], run(old(self)@)[i])
            },
    {
        let ghost s0 = self@;
        let ghost mut done: Seq<Outcome> = Seq::empty();
        let mut out: Vec<LexResult> = Vec::new();
        loop
            invariant
                s0 == old(self)@,
                s0.well_formed(),
                self.wf(),
                run(s0) == done + run(self@),
                out@.len() == done.len(),
                forall|i: int| 0 <= i < out@.len() ==> reports(#[trigger] out@[i], done[i]),
                !run_aborts(done),
                forall|i: int| 0 <= i < done.len() ==> !(#[trigger] done[i] is Abort),
            decreases remaining(self@), self@.depth,
        {
            let ghost before = self@;
            proof {
                reveal_with_fuel(run, 2);
            }
            match self.try_next() {
                None => {
                    assert(run(before) =~= seq![Outcome::Abort]);
                    assert((done + run(before)).last() is Abort);
                    return None;
                },
                Some(None) => {
                    assert(run(before) =~= Seq::<Outcome>::empty());
                    assert(done + run(before) =~= done);
                    return Some(out);
                },
                Some(Some(x)) => {
                    proof {
                        lemma_step_progress(before);
                        lemma_step_keeps_bounds(before);
                    }
                    let ghost o = step(before).1;
                    assert(run(before) =~= seq![o] + run(self@));
                    out.push(x);
                    proof {
                        done = done.push(o);
                        assert(done + run(self@) =~= run(s0));
                    }
                },
            }
        }
    }

    /// One step of the lexer; `None` where the step cannot complete.
    fn inner_next(&mut self) -> (r: Option<LexResult>)
        requires
            old(self).wf(),
        ensures
            (step(old(self)@).1 is Abort) <==> r is None,
            r matches Some(x) ==> {
                &&& final(self)@ == step(old(self)@).0
                &&& reports(x, step(old(self)@).1)
                &&& final(self).wf()
            },
            final(self)@.chars == old(self)@.chars,
            final(self)@.level == old(self)@.level,
        decreases remaining(old(self)@),
    {
        let ghost s = self@;
        if !self.has_more_tokens() {
            return Some(Ok(self.make_eof()));
        }
        let loc_left = self.location;
        let mut c = self.set_next_char().unwrap();
        let mut after_comment = false;

        // comment
        if c == '/' {
            if self.take_if('/') {
                after_comment = true;
                proof {
                    lemma_first_newline_range(s.chars, s.position + 2);
                }
                loop
                    invariant_except_break
                        s == old(self)@,
                        s.well_formed(),
                        0 <= s.position,
                        s.position + 2 <= self@.position <= s.len(),
                        self@ == s.moved(self@.position - s.position),
                        first_newline(s.chars, self@.position) == first_newline(
                            s.chars,
                            s.position + 2,
                        ),
                        s.chars[s.position] == '/',
                        s.position + 1 < s.len(),
                        s.chars[s.position + 1] == '/',
                    ensures
                        c == '\n',
                        first_newline(s.chars, s.position + 2) < s.len(),
                        self@ == s.moved(first_newline(s.chars, s.position + 2) + 1 - s.position),
                    decreases s.len() - self@.position,
                {
                    c = match self.set_next_char() {
                        Some(v) => v,
                        None => {
                            assert(comment_to_end(s));
                            return Some(Ok(self.make_eof()));
                        },
                    };
                    if c == '\n' {
                        break;
                    }
                }
            }
        }
        let ghost s1 = self@;
        assert(first_char(s) == (c, s1));
        assert(!comment_to_end(s));
        assert(after_comment == starts_comment(s));
        match self.after_char(loc_left, c, after_comment) {
            Flow::Done(res) => Some(res),
            Flow::Abort => None,
            Flow::Again => self.inner_next(),
        }
    }

    /// At the end of the input: one owed dedent, or the end of file.
    fn make_eof(&mut self) -> (r: Spanned)
        ensures
            (final(self)@, Outcome::Emit(r.0, lexeme_of(r.1), r.2)) == at_end(old(self)@),
    {
        let t = if self.indention_now > 0 {
            self.indention_now -= 1;
            Tok::Dedent
        } else {
            Tok::EndOfFile
        };
        (self.location, t, self.location)
    }
}

} // verus!

