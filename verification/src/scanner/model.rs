//! The meaning of one scanning step of the indentation-aware lexer, stated
//! over a mathematical model of its state.

use crate::error::{LexicalError, LexicalErrorType};
use crate::location::Location;
use crate::text::{alphabetic, hex_value, i64_text_value, numeric, utf8_length};
use crate::token::{Lexeme, Tok};
use crate::types::RGBA;
use vstd::prelude::*;

verus! {

/// The longest source, in characters, that the lexer accepts: the most
/// characters that a `Vec<char>` can hold, since a vector holds at most
/// `isize::MAX` bytes and a `char` takes four.
pub const MAX_SOURCE_CHARS: usize = usize::MAX / 8;

/// The state of the lexer: the source characters, the read position, the
/// location of that position, the indentation width, the current depth of
/// indentation, the number of dedents still owed, and whether the previous
/// token ended a line (`prev_new_line`) and whether the next token starts one
/// (`new_line`).
pub struct ScanState {
    pub chars: Seq<char>,
    pub position: int,
    pub row: int,
    pub column: int,
    pub level: int,
    pub depth: int,
    pub pending: int,
    pub prev_new_line: bool,
    pub new_line: bool,
}

/// What one step hands out: a token with its start and end location, a
/// lexical error, or nothing because the step cannot complete (a literal that
/// does not convert, an indentation width of zero, or arithmetic out of range).
pub enum Outcome {
    Emit(Location, Lexeme, Location),
    Fail(LexicalError),
    Abort,
}

/// After a character was read: the step is over, or the character is
/// skipped and scanning starts over from the given state.
pub enum Reaction {
    Done(ScanState, Outcome),
    Again(ScanState),
}

impl ScanState {
    pub open spec fn len(self) -> int {
        self.chars.len() as int
    }

    /// The location of the read position.
    pub open spec fn loc(self) -> Location {
        Location::at(self.row as usize, self.column as usize)
    }

    /// The state `n` characters further on the same line.
    pub open spec fn moved(self, n: int) -> ScanState {
        ScanState { position: self.position + n, column: self.column + n, ..self }
    }

    /// The bounds that every reachable state keeps.
    pub open spec fn well_formed(self) -> bool {
        &&& self.len() <= MAX_SOURCE_CHARS
        &&& 0 <= self.position <= 2 * self.len() + 2
        &&& 1 <= self.column <= self.position + 1
        &&& 1 <= self.row <= self.position + 1
        &&& 0 <= self.level <= usize::MAX
        &&& 0 <= self.depth <= self.position
        &&& 0 <= self.pending
        &&& self.position < self.len() ==> self.pending <= self.depth
    }

    /// The state in which scanning of `chars` starts.
    pub open spec fn start(chars: Seq<char>, level: int) -> ScanState {
        ScanState {
            chars,
            position: 0,
            row: 1,
            column: 1,
            level,
            depth: 0,
            pending: 0,
            prev_new_line: true,
            new_line: true,
        }
    }
}

/// The number of spaces from index `from` up to the first other character.
pub open spec fn spaces_from(chars: Seq<char>, from: int) -> int
    decreases chars.len() - from,
{
    if from < 0 || from >= chars.len() || chars[from] != ' ' {
        0
    } else {
        1 + spaces_from(chars, from + 1)
    }
}

/// The indentation measured at index `from`: the number of leading spaces,
/// or the length of the whole source when only spaces follow.
pub open spec fn indent_width(chars: Seq<char>, from: int) -> int {
    if from + spaces_from(chars, from) < chars.len() {
        spaces_from(chars, from)
    } else {
        chars.len() as int
    }
}

/// The first index from `from` on that holds a line break, or the length.
pub open spec fn first_newline(chars: Seq<char>, from: int) -> int
    decreases chars.len() - from,
{
    if from >= chars.len() {
        chars.len() as int
    } else if chars[from] == '\n' {
        from
    } else {
        first_newline(chars, from + 1)
    }
}

/// Where a scan that stopped at index `stop` leaves the read position: on the
/// character that stopped it, or one past the failed read when the input ran
/// out there.
pub open spec fn resume_at(len: int, stop: int) -> int {
    if stop < len {
        stop
    } else {
        stop + 1
    }
}

/// The characters from index `from` up to `stop`, none when the range lies
/// past the end.
pub open spec fn span(chars: Seq<char>, from: int, stop: int) -> Seq<char> {
    if 0 <= from <= stop <= chars.len() {
        chars.subrange(from, stop)
    } else {
        Seq::empty()
    }
}

/// Where the characters of a number that continue at `from` end (at `from`
/// or the length when the input runs out), and whether they end at a second
/// decimal point.
pub open spec fn number_end(chars: Seq<char>, from: int, dotted: bool) -> (int, bool)
    decreases chars.len() - from,
{
    if from >= chars.len() {
        (from, false)
    } else if chars[from] == '.' {
        if dotted {
            (from, true)
        } else {
            number_end(chars, from + 1, true)
        }
    } else if !numeric(chars[from]) {
        (from, false)
    } else {
        number_end(chars, from + 1, dotted)
    }
}

/// The text of a quoted string whose body starts at `from`, with each
/// backslash dropped and the character after it kept, and the position
/// after the closing quote (one past the end when there is none).
pub open spec fn quoted_text(chars: Seq<char>, from: int, quote: char, escaped: bool) -> (
    Seq<char>,
    int,
)
    decreases chars.len() - from,
{
    if from >= chars.len() {
        (Seq::empty(), from + 1)
    } else {
        let c = chars[from];
        if escaped {
            let rest = quoted_text(chars, from + 1, quote, false);
            (seq![c] + rest.0, rest.1)
        } else if c == '\\' {
            quoted_text(chars, from + 1, quote, true)
        } else if c == quote {
            (Seq::empty(), from + 1)
        } else {
            let rest = quoted_text(chars, from + 1, quote, false);
            (seq![c] + rest.0, rest.1)
        }
    }
}

/// A character that may continue a hash colour: a number or `a`-`f`, `A`-`F`.
pub open spec fn colour_char(c: char) -> bool {
    numeric(c) || ('a' <= c && c <= 'f') || ('A' <= c && c <= 'F')
}

/// Where the digits of a hash colour that continue at `from` end, and
/// whether they end at a letter that is no hexadecimal digit.
pub open spec fn colour_end(chars: Seq<char>, from: int) -> (int, bool)
    decreases chars.len() - from,
{
    if from >= chars.len() {
        (from, false)
    } else if colour_char(chars[from]) {
        colour_end(chars, from + 1)
    } else {
        (from, alphabetic(chars[from]))
    }
}

/// Every character of `d` is a hexadecimal digit.
pub open spec fn all_hex(d: Seq<char>) -> bool {
    forall|i: int| 0 <= i < d.len() ==> (#[trigger] hex_value(d[i])) is Some
}

/// The byte written by the two hexadecimal digits at index `i`.
pub open spec fn hex_byte(d: Seq<char>, i: int) -> u8 {
    (hex_value(d[i])->0 * 16 + hex_value(d[i + 1])->0) as u8
}

/// The colour written by six or eight hexadecimal digits; without the last
/// two, the colour is opaque.
pub open spec fn colour_of(d: Seq<char>) -> RGBA {
    RGBA(
        hex_byte(d, 0),
        hex_byte(d, 2),
        hex_byte(d, 4),
        if d.len() == 8 {
            hex_byte(d, 6)
        } else {
            255
        },
    )
}

/// A character that continues a name.
pub open spec fn word_char(c: char) -> bool {
    alphabetic(c) || numeric(c) || c == '_'
}

/// The first index from `from` on whose character does not continue a name,
/// or the length.
pub open spec fn word_end(chars: Seq<char>, from: int) -> int
    decreases chars.len() - from,
{
    if from >= chars.len() {
        from
    } else if !word_char(chars[from]) {
        from
    } else {
        word_end(chars, from + 1)
    }
}

/// The markers that source rewriting places after a NUL character.
pub open spec fn marker(w: Seq<char>) -> Option<Tok> {
    if w == seq!['f', 'u', 'n', 'c', 't', 'i', 'o', 'n'] {
        Some(Tok::FunctionMarker)
    } else if w == seq!['u', 'n', 'p', 'a', 'c', 'k', '_', 't', 'u', 'p', 'l', 'e'] {
        Some(Tok::UnpackTupleMarker)
    } else {
        None
    }
}

/// The keywords of the language.
pub open spec fn keyword(w: Seq<char>) -> Option<Tok> {
    if w == seq!['i', 'f'] {
        Some(Tok::If)
    } else if w == seq!['e', 'l', 's', 'e'] {
        Some(Tok::Else)
    } else if w == seq!['s', 'e', 'r', 'i', 'e', 's'] {
        Some(Tok::Series)
    } else if w == seq!['c', 'o', 'n', 's', 't'] {
        Some(Tok::Const)
    } else if w == seq!['t', 'y', 'p', 'e'] {
        Some(Tok::Type)
    } else if w == seq!['e', 'n', 'u', 'm'] {
        Some(Tok::Enum)
    } else if w == seq!['v', 'a', 'r'] {
        Some(Tok::Var)
    } else if w == seq!['f', 'o', 'r'] {
        Some(Tok::For)
    } else if w == seq!['t', 'o'] {
        Some(Tok::To)
    } else if w == seq!['i', 'n'] {
        Some(Tok::In)
    } else if w == seq!['b', 'y'] {
        Some(Tok::By)
    } else if w == seq!['w', 'h', 'i', 'l', 'e'] {
        Some(Tok::While)
    } else if w == seq!['s', 'w', 'i', 't', 'c', 'h'] {
        Some(Tok::Switch)
    } else if w == seq!['i', 'm', 'p', 'o', 'r', 't'] {
        Some(Tok::Import)
    } else if w == seq!['n', 'o', 't'] {
        Some(Tok::Not)
    } else if w == seq!['a', 'n', 'd'] {
        Some(Tok::And)
    } else if w == seq!['o', 'r'] {
        Some(Tok::Or)
    } else if w == seq!['t', 'r', 'u', 'e'] {
        Some(Tok::True)
    } else if w == seq!['f', 'a', 'l', 's', 'e'] {
        Some(Tok::False)
    } else {
        None
    }
}

/// The meaning of a word: after a NUL, a marker if it names one; otherwise a
/// keyword, or else an identifier (without the NUL).
pub open spec fn word_lexeme(text: Seq<char>) -> Lexeme {
    let name = if text.len() > 0 && text[0] == '\0' {
        text.drop_first()
    } else {
        text
    };
    if text.len() > 0 && text[0] == '\0' && marker(name) is Some {
        Lexeme::Plain(marker(name)->0)
    } else if keyword(name) is Some {
        Lexeme::Plain(keyword(name)->0)
    } else {
        Lexeme::Name(name)
    }
}

/// The operator or punctuation that starts with `c`, given the character
/// after it, with the number of further characters it takes.
pub open spec fn symbol(c: char, next: Option<char>) -> Option<(Tok, int)> {
    let eq = next == Some('=');
    if c == '+' {
        Some(if eq { (Tok::EqualAdd, 1) } else { (Tok::Plus, 0) })
    } else if c == '-' {
        Some(if eq { (Tok::EqualSub, 1) } else { (Tok::Minus, 0) })
    } else if c == '/' {
        Some(if eq { (Tok::EqualDiv, 1) } else { (Tok::Slash, 0) })
    } else if c == '*' {
        Some(if eq { (Tok::EqualMul, 1) } else { (Tok::Asterisk, 0) })
    } else if c == '\\' {
        Some((Tok::Backslash, 0))
    } else if c == '?' {
        Some((Tok::QuestionMark, 0))
    } else if c == '!' {
        Some(if eq { (Tok::NotEqual, 1) } else { (Tok::ExclamationMark, 0) })
    } else if c == '=' {
        Some(
            if eq {
                (Tok::DoubleEqual, 1)
            } else if next == Some('>') {
                (Tok::Follow, 1)
            } else {
                (Tok::Equal, 0)
            },
        )
    } else if c == '<' {
        Some(if eq { (Tok::Lte, 1) } else { (Tok::Less, 0) })
    } else if c == '>' {
        Some(if eq { (Tok::Gte, 1) } else { (Tok::Greater, 0) })
    } else if c == '(' {
        Some((Tok::OpenParenthesis, 0))
    } else if c == ')' {
        Some((Tok::CloseParenthesis, 0))
    } else if c == '[' {
        Some((Tok::OpenBrackets, 0))
    } else if c == ']' {
        Some((Tok::CloseBrackets, 0))
    } else if c == '@' {
        Some((Tok::At, 0))
    } else if c == '#' {
        Some((Tok::Hash, 0))
    } else if c == '.' {
        Some((Tok::Dot, 0))
    } else if c == ',' {
        Some((Tok::Comma, 0))
    } else if c == '%' {
        Some((Tok::Mod, 0))
    } else if c == ':' {
        Some(if eq { (Tok::ColonEqual, 1) } else { (Tok::Colon, 0) })
    } else if c == ';' {
        Some((Tok::Semicolon, 0))
    } else {
        None
    }
}

/// The step at the end of the input: one owed dedent, or the end of file.
pub open spec fn at_end(s: ScanState) -> (ScanState, Outcome) {
    if s.depth > 0 {
        (
            ScanState { depth: s.depth - 1, ..s },
            Outcome::Emit(s.loc(), Lexeme::Plain(Tok::Dedent), s.loc()),
        )
    } else {
        (s, Outcome::Emit(s.loc(), Lexeme::Plain(Tok::EndOfFile), s.loc()))
    }
}

/// The token that starts with `c`, read at `loc_left`; `s` is the state after
/// reading it, on a line whose indentation is settled.
pub open spec fn lexeme(loc_left: Location, s: ScanState, c: char) -> Reaction {
    let p = s.position;
    let len = s.len();
    if numeric(c) || c == '.' {
        let (stop, twice) = number_end(s.chars, p, c == '.');
        if twice {
            Reaction::Done(
                s.moved(stop + 1 - p),
                Outcome::Fail(
                    LexicalError { error: LexicalErrorType::NumberError, location: loc_left },
                ),
            )
        } else {
            let s2 = s.moved(resume_at(len, stop) - p);
            let lit = seq![c] + span(s.chars, p, stop);
            if lit.contains('.') {
                Reaction::Done(s2, Outcome::Emit(loc_left, Lexeme::Float(lit), s2.loc()))
            } else {
                match i64_text_value(lit) {
                    Some(v) => Reaction::Done(
                        s2,
                        Outcome::Emit(loc_left, Lexeme::Int(v), s2.loc()),
                    ),
                    None => Reaction::Done(s2, Outcome::Abort),
                }
            }
        }
    } else if c == '"' || c == '\'' {
        let (text, end) = quoted_text(s.chars, p, c, false);
        let s2 = s.moved(end - p);
        Reaction::Done(s2, Outcome::Emit(loc_left, Lexeme::Str(text), s2.loc()))
    } else if c == '#' {
        let (stop, letter) = colour_end(s.chars, p);
        if letter {
            let s2 = s.moved(stop + 1 - p);
            Reaction::Done(
                s2,
                Outcome::Fail(
                    LexicalError { error: LexicalErrorType::HashColorError, location: s2.loc() },
                ),
            )
        } else {
            let s2 = s.moved(resume_at(len, stop) - p);
            let d = span(s.chars, p, stop);
            if utf8_length(d) != 6 && utf8_length(d) != 8 {
                Reaction::Done(
                    s2,
                    Outcome::Fail(
                        LexicalError {
                            error: LexicalErrorType::HashColorError,
                            location: s2.loc(),
                        },
                    ),
                )
            } else if !all_hex(d) {
                Reaction::Done(s2, Outcome::Abort)
            } else {
                Reaction::Done(s2, Outcome::Emit(loc_left, Lexeme::Color(colour_of(d)), s2.loc()))
            }
        }
    } else if alphabetic(c) || c == '_' || c == '\0' {
        let stop = word_end(s.chars, p);
        let s2 = s.moved(resume_at(len, stop) - p);
        Reaction::Done(
            s2,
            Outcome::Emit(loc_left, word_lexeme(seq![c] + span(s.chars, p, stop)), s2.loc()),
        )
    } else {
        let next = if p < len {
            Some(s.chars[p])
        } else {
            None
        };
        match symbol(c, next) {
            Some((t, k)) => {
                let s2 = s.moved(k);
                Reaction::Done(s2, Outcome::Emit(loc_left, Lexeme::Plain(t), s2.loc()))
            },
            None => Reaction::Again(s),
        }
    }
}

/// At the start of a line whose first character `c` was just read (state
/// `s`): indentation tokens, or else the token itself.
pub open spec fn line_start(loc_left: Location, s: ScanState, c: char, cfi: int) -> Reaction {
    let count = indent_width(s.chars, s.position - 1);
    let s3 = if count > 0 {
        ScanState { position: s.position + count - 1, ..s }
    } else {
        s
    };
    if cfi == count {
        let s4 = ScanState { depth: s3.depth + 1, new_line: false, ..s3 };
        Reaction::Done(s4, Outcome::Emit(loc_left, Lexeme::Plain(Tok::Indent), s4.loc()))
    } else if s3.level == 0 {
        Reaction::Done(s3, Outcome::Abort)
    } else if count / s3.level < s3.depth {
        let s4 = ScanState {
            pending: s3.depth - count / s3.level - 1,
            new_line: false,
            depth: s3.depth - 1,
            ..s3.moved(-1)
        };
        Reaction::Done(s4, Outcome::Emit(loc_left, Lexeme::Plain(Tok::Dedent), s4.loc()))
    } else {
        lexeme(loc_left, ScanState { new_line: false, ..s3 }, c)
    }
}

/// What follows the reading of `c` at `loc_left`, `s` being the state after
/// the read. The line break that closes a comment (`after_comment`) is
/// measured where it stands, with no indentation, so the line after a comment
/// never continues the line before it.
pub open spec fn react(loc_left: Location, s: ScanState, c: char, after_comment: bool) -> Reaction {
    if (s.depth + 2) * s.level > usize::MAX {
        Reaction::Done(s, Outcome::Abort)
    } else {
        let cfi = (s.depth + 1) * s.level;
        let cfi2 = (s.depth + 2) * s.level;
        if c == '\n' {
            let s2 = ScanState { row: s.row + 1, column: 1, ..s };
            let count = if after_comment {
                0
            } else {
                indent_width(s.chars, s.position)
            };
            if cfi < count && count < cfi2 {
                Reaction::Again(s2)
            } else if s.prev_new_line {
                Reaction::Again(ScanState { new_line: true, ..s2 })
            } else {
                let s3 = ScanState { new_line: true, prev_new_line: true, ..s2 };
                Reaction::Done(s3, Outcome::Emit(s3.loc(), Lexeme::Plain(Tok::NewLine), s3.loc()))
            }
        } else {
            let s2 = ScanState { prev_new_line: false, ..s };
            if s2.pending > 0 {
                let s3 = ScanState { pending: s2.pending - 1, depth: s2.depth - 1, ..s2.moved(-1) };
                Reaction::Done(s3, Outcome::Emit(loc_left, Lexeme::Plain(Tok::Dedent), s3.loc()))
            } else if s2.new_line {
                line_start(loc_left, s2, c, cfi)
            } else {
                lexeme(loc_left, s2, c)
            }
        }
    }
}

/// Whether the step at `s` begins with a comment: `//`.
pub open spec fn starts_comment(s: ScanState) -> bool {
    let p1 = s.position + 1;
    s.chars[s.position] == '/' && p1 < s.len() && s.chars[p1] == '/'
}

/// The first character of a step and the state after reading it; a comment
/// (`//` up to and including the line break) is read as the line break that
/// ends it, or as the end of the input.
pub open spec fn first_char(s: ScanState) -> (char, ScanState) {
    if starts_comment(s) {
        let e = first_newline(s.chars, s.position + 2);
        if e >= s.len() {
            ('\0', s.moved(s.len() + 1 - s.position))
        } else {
            ('\n', s.moved(e + 1 - s.position))
        }
    } else {
        (s.chars[s.position], s.moved(1))
    }
}

/// Whether the step at `s` begins with a comment that runs to the end of
/// the input.
pub open spec fn comment_to_end(s: ScanState) -> bool {
    starts_comment(s) && first_newline(s.chars, s.position + 2) >= s.len()
}

/// The number of characters not yet read.
pub open spec fn remaining(s: ScanState) -> int {
    if 0 <= s.position < s.len() {
        s.len() - s.position
    } else {
        0
    }
}

/// One step of the lexer: the state after it and what it hands out.
pub open spec fn step(s: ScanState) -> (ScanState, Outcome)
    decreases remaining(s),
{
    if s.position < 0 || s.position >= s.len() {
        at_end(s)
    } else if comment_to_end(s) {
        at_end(first_char(s).1)
    } else {
        let (c, s1) = first_char(s);
        match react(s.loc(), s1, c, starts_comment(s)) {
            Reaction::Done(s2, out) => (s2, out),
            Reaction::Again(s2) => if s.position < s2.position {
                step(s2)
            } else {
                (s2, Outcome::Abort)
            },
        }
    }
}

} // verus!

verus! {

/// A scan from `from` stops at `from` or later, and within the input when it
/// starts there.
pub proof fn lemma_number_end_range(chars: Seq<char>, from: int, dotted: bool)
    ensures
        from <= number_end(chars, from, dotted).0,
        from <= chars.len() ==> number_end(chars, from, dotted).0 <= chars.len(),
        from > chars.len() ==> number_end(chars, from, dotted).0 == from,
    decreases chars.len() - from,
{
    if from < chars.len() {
        if chars[from] == '.' {
            if !dotted {
                lemma_number_end_range(chars, from + 1, true);
            }
        } else if numeric(chars[from]) {
            lemma_number_end_range(chars, from + 1, dotted);
        }
    }
}

pub proof fn lemma_colour_end_range(chars: Seq<char>, from: int)
    ensures
        from <= colour_end(chars, from).0,
        from <= chars.len() ==> colour_end(chars, from).0 <= chars.len(),
        from > chars.len() ==> colour_end(chars, from).0 == from,
        colour_end(chars, from).1 ==> colour_end(chars, from).0 < chars.len(),
    decreases chars.len() - from,
{
    if from < chars.len() && colour_char(chars[from]) {
        lemma_colour_end_range(chars, from + 1);
    }
}

pub proof fn lemma_word_end_range(chars: Seq<char>, from: int)
    ensures
        from <= word_end(chars, from),
        from <= chars.len() ==> word_end(chars, from) <= chars.len(),
        from > chars.len() ==> word_end(chars, from) == from,
    decreases chars.len() - from,
{
    if from < chars.len() && word_char(chars[from]) {
        lemma_word_end_range(chars, from + 1);
    }
}

pub proof fn lemma_quoted_text_range(chars: Seq<char>, from: int, quote: char, escaped: bool)
    ensures
        from + 1 <= quoted_text(chars, from, quote, escaped).1,
        from <= chars.len() ==> quoted_text(chars, from, quote, escaped).1 <= chars.len() + 1,
        from > chars.len() ==> quoted_text(chars, from, quote, escaped).1 == from + 1,
    decreases chars.len() - from,
{
    if from < chars.len() {
        let c = chars[from];
        if escaped {
            lemma_quoted_text_range(chars, from + 1, quote, false);
        } else if c == '\\' {
            lemma_quoted_text_range(chars, from + 1, quote, true);
        } else if c != quote {
            lemma_quoted_text_range(chars, from + 1, quote, false);
        }
    }
}

pub proof fn lemma_first_newline_range(chars: Seq<char>, from: int)
    requires
        0 <= from,
    ensures
        from <= chars.len() ==> from <= first_newline(chars, from) <= chars.len(),
        first_newline(chars, from) < chars.len() ==> chars[first_newline(chars, from)] == '\n',
    decreases chars.len() - from,
{
    if from < chars.len() && chars[from] != '\n' {
        lemma_first_newline_range(chars, from + 1);
    }
}

pub proof fn lemma_indent_width_range(chars: Seq<char>, from: int)
    requires
        0 <= from <= chars.len(),
    ensures
        0 <= indent_width(chars, from) <= chars.len(),
        from < chars.len() && indent_width(chars, from) > 0 ==> chars[from] == ' ',
{
    lemma_spaces_from_range(chars, from);
}

pub proof fn lemma_spaces_from_range(chars: Seq<char>, from: int)
    requires
        0 <= from <= chars.len(),
    ensures
        0 <= spaces_from(chars, from) <= chars.len() - from,
    decreases chars.len() - from,
{
    if from < chars.len() && chars[from] == ' ' {
        lemma_spaces_from_range(chars, from + 1);
    }
}

} // verus!
