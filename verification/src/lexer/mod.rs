//! A plain tokenizer over a sequence of characters: names, double-quoted
//! literals, unsigned numbers, the start of a `//` comment and single-character
//! punctuation, with white space between them skipped.

mod token;

pub use token::Token;

use crate::text::{
    alphabetic, is_alphabetic, is_alphanumeric, is_numeric, is_whitespace, numeric, parse_u64,
    string_from_chars, u64_text_value, whitespace,
};
use std::num::ParseIntError;
use vstd::prelude::*;

verus! {

#[derive(Debug)]
pub enum LexerError {
    MissingStringQuote,
    NumberParseError(ParseIntError),
}

pub struct Lexer {
    source_stream: Vec<char>,
    position: usize,
}

/// What one call of `Lexer::next` finds.
pub enum Scanned {
    /// Nothing is left.
    Finished,
    /// A name.
    Word(Seq<char>),
    /// The text between two double quotes.
    Text(Seq<char>),
    /// A double quote that no other closes.
    Unterminated,
    /// A run of number characters.
    Digits(Seq<char>),
    /// A slash whose second next character is a slash.
    CommentStart,
    /// Any other character.
    Symbol(Token),
}

/// The first index from `from` on whose character is no white space, or the
/// length.
pub open spec fn skip_space(chars: Seq<char>, from: int) -> int
    decreases chars.len() - from,
{
    if from >= chars.len() || !whitespace(chars[from]) {
        from
    } else {
        skip_space(chars, from + 1)
    }
}

/// The first index from `from` on whose character does not continue a name,
/// or the length.
pub open spec fn name_end(chars: Seq<char>, from: int) -> int
    decreases chars.len() - from,
{
    if from >= chars.len() || !(alphabetic(chars[from]) || numeric(chars[from]) || chars[from]
        == '_') {
        from
    } else {
        name_end(chars, from + 1)
    }
}

/// The first index from `from` on whose character is no number, or the
/// length.
pub open spec fn digits_end(chars: Seq<char>, from: int) -> int
    decreases chars.len() - from,
{
    if from >= chars.len() || !numeric(chars[from]) {
        from
    } else {
        digits_end(chars, from + 1)
    }
}

/// The first index from `from` on that holds a double quote, or the length.
pub open spec fn closing_quote(chars: Seq<char>, from: int) -> int
    decreases chars.len() - from,
{
    if from >= chars.len() || chars[from] == '"' {
        from
    } else {
        closing_quote(chars, from + 1)
    }
}

/// The token of a single character.
pub open spec fn punctuation(c: char) -> Token {
    if c == '+' {
        Token::Plus
    } else if c == '-' {
        Token::Minus
    } else if c == '*' {
        Token::Asterisk
    } else if c == '/' {
        Token::Slash
    } else if c == ':' {
        Token::Colon
    } else if c == ';' {
        Token::Semicolon
    } else if c == '<' {
        Token::Lt
    } else if c == '>' {
        Token::Gt
    } else if c == '=' {
        Token::Eq
    } else if c == '[' {
        Token::OpenBracket
    } else if c == ']' {
        Token::CloseBracket
    } else if c == '^' {
        Token::Caret
    } else if c == '`' {
        Token::GraveAccent
    } else if c == '{' {
        Token::OpenBrace
    } else if c == '}' {
        Token::CloseBrace
    } else if c == '|' {
        Token::VerticalBar
    } else if c == '~' {
        Token::Tilde
    } else if c == '(' {
        Token::OpenParentesis
    } else if c == ')' {
        Token::CloseParenthesis
    } else if c == '@' {
        Token::At
    } else if c == '\n' {
        Token::EndOfLine
    } else {
        Token::Unknown
    }
}

/// One call of `next` on `chars` read from position `p`: the position after
/// it and what it finds.
pub open spec fn scan(chars: Seq<char>, p: int) -> (int, Scanned) {
    let len = chars.len() as int;
    if p < 0 || p >= len {
        (p + 1, Scanned::Finished)
    } else {
        let q = skip_space(chars, p);
        if q >= len {
            (len, Scanned::Finished)
        } else {
            let c = chars[q];
            if alphabetic(c) || c == '_' {
                let e = name_end(chars, q + 1);
                (e, Scanned::Word(chars.subrange(q, e)))
            } else if c == '"' {
                let e = closing_quote(chars, q + 1);
                if e < len {
                    (e + 1, Scanned::Text(chars.subrange(q + 1, e)))
                } else {
                    (len, Scanned::Unterminated)
                }
            } else if numeric(c) {
                let e = digits_end(chars, q + 1);
                (e, Scanned::Digits(chars.subrange(q, e)))
            } else if c == '/' && q + 2 < len && chars[q + 2] == '/' {
                (q + 2, Scanned::CommentStart)
            } else {
                (q + 1, Scanned::Symbol(punctuation(c)))
            }
        }
    }
}

proof fn lemma_skip_space_range(chars: Seq<char>, from: int)
    ensures
        from <= skip_space(chars, from),
        from <= chars.len() ==> skip_space(chars, from) <= chars.len(),
        skip_space(chars, from) < chars.len() ==> !whitespace(chars[skip_space(chars, from)]),
    decreases chars.len() - from,
{
    if from < chars.len() && whitespace(chars[from]) {
        lemma_skip_space_range(chars, from + 1);
    }
}

proof fn lemma_run_ends_range(chars: Seq<char>, from: int)
    requires
        0 <= from <= chars.len(),
    ensures
        from <= name_end(chars, from) <= chars.len(),
        from <= digits_end(chars, from) <= chars.len(),
        from <= closing_quote(chars, from) <= chars.len(),
    decreases chars.len() - from,
{
    if from < chars.len() {
        lemma_run_ends_range(chars, from + 1);
    }
}

/// Every call of `next` moves the read position forward, and once nothing
/// but white space is left, every later call finds nothing again.
pub proof fn lemma_scan_advances(chars: Seq<char>, p: int)
    requires
        0 <= p,
    ensures
        scan(chars, p).0 > p,
        scan(chars, p).1 is Finished ==> scan(chars, p).0 >= chars.len(),
        scan(chars, p).0 >= chars.len() ==> scan(chars, scan(chars, p).0).1 is Finished,
{
    if p < chars.len() {
        lemma_skip_space_range(chars, p);
        let q = skip_space(chars, p);
        if q < chars.len() {
            lemma_run_ends_range(chars, q + 1);
        }
    }
}

/// A call that finds something moves the read position forward without
/// passing the end of the input.
pub proof fn lemma_scan_stays_within(chars: Seq<char>, p: int)
    requires
        0 <= p,
        !(scan(chars, p).1 is Finished),
    ensures
        p < scan(chars, p).0 <= chars.len(),
{
    lemma_scan_advances(chars, p);
    if p < chars.len() {
        lemma_skip_space_range(chars, p);
        let q = skip_space(chars, p);
        if q < chars.len() {
            lemma_run_ends_range(chars, q + 1);
        }
    }
}

/// The number of items that `next` hands out from position `p` before it
/// first finds nothing.
pub open spec fn item_count(chars: Seq<char>, p: int) -> nat
    decreases chars.len() - p,
    when 0 <= p
{
    if scan(chars, p).1 is Finished {
        0
    } else {
        proof {
            lemma_scan_stays_within(chars, p);
        }
        1 + item_count(chars, scan(chars, p).0)
    }
}

/// Every item uses up at least one character: from position `p`, `next`
/// hands out at most as many items as characters remain, and then nothing.
pub proof fn lemma_item_count_bounded(chars: Seq<char>, p: int)
    requires
        0 <= p,
    ensures
        item_count(chars, p) <= if p <= chars.len() {
            chars.len() - p
        } else {
            0
        },
    decreases chars.len() - p,
{
    if !(scan(chars, p).1 is Finished) {
        lemma_scan_stays_within(chars, p);
        lemma_item_count_bounded(chars, scan(chars, p).0);
    }
}

/// A source of nothing but white space from `p` on holds nothing more.
pub proof fn lemma_blank_source_finishes(chars: Seq<char>, p: int)
    requires
        0 <= p,
        forall|i: int| p <= i < chars.len() ==> whitespace(#[trigger] chars[i]),
    ensures
        scan(chars, p).1 is Finished,
{
    if p < chars.len() {
        lemma_blank_skip(chars, p);
    }
}

proof fn lemma_blank_skip(chars: Seq<char>, from: int)
    requires
        0 <= from <= chars.len(),
        forall|i: int| from <= i < chars.len() ==> whitespace(#[trigger] chars[i]),
    ensures
        skip_space(chars, from) == chars.len(),
    decreases chars.len() - from,
{
    if from < chars.len() {
        assert(whitespace(chars[from]));
        lemma_blank_skip(chars, from + 1);
    }
}

/// White space up to `q` is skipped, and no further.
proof fn lemma_skip_to(chars: Seq<char>, p: int, q: int)
    requires
        0 <= p <= q < chars.len(),
        forall|j: int| p <= j < q ==> whitespace(#[trigger] chars[j]),
        !whitespace(chars[q]),
    ensures
        skip_space(chars, p) == q,
    decreases q - p,
{
    if p < q {
        assert(whitespace(chars[p]));
        lemma_skip_to(chars, p + 1, q);
    }
}

/// A scan through a name stops at the first character that does not
/// continue it.
proof fn lemma_name_end_maximal(chars: Seq<char>, from: int)
    requires
        0 <= from <= chars.len(),
    ensures
        from <= name_end(chars, from) <= chars.len(),
        forall|j: int|
            from <= j < name_end(chars, from) ==> alphabetic(#[trigger] chars[j]) || numeric(
                chars[j],
            ) || chars[j] == '_',
        name_end(chars, from) < chars.len() ==> !(alphabetic(chars[name_end(chars, from)])
            || numeric(chars[name_end(chars, from)]) || chars[name_end(chars, from)] == '_'),
    decreases chars.len() - from,
{
    if from < chars.len() && (alphabetic(chars[from]) || numeric(chars[from]) || chars[from]
        == '_') {
        lemma_name_end_maximal(chars, from + 1);
    }
}

/// A name starts at a letter or at `_`: where the first character that is no
/// white space from `p` on is one of them, `next` finds a single name holding
/// the whole run of letters, digits and `_` that starts there, and reads on
/// from the first character after the run.
pub proof fn lemma_name_starts_at_letter_or_underscore(chars: Seq<char>, p: int, q: int)
    requires
        0 <= p <= q < chars.len(),
        forall|j: int| p <= j < q ==> whitespace(#[trigger] chars[j]),
        !whitespace(chars[q]),
        alphabetic(chars[q]) || chars[q] == '_',
    ensures
        ({
            let (e, found) = scan(chars, p);
            &&& q < e <= chars.len()
            &&& forall|j: int|
                q < j < e ==> alphabetic(#[trigger] chars[j]) || numeric(chars[j]) || chars[j]
                    == '_'
            &&& e < chars.len() ==> !(alphabetic(chars[e]) || numeric(chars[e]) || chars[e] == '_')
            &&& found == Scanned::Word(chars.subrange(q, e))
        }),
{
    lemma_skip_to(chars, p, q);
    lemma_name_end_maximal(chars, q + 1);
}

/// A scan for a double quote passes none.
proof fn lemma_closing_quote_first(chars: Seq<char>, from: int)
    requires
        0 <= from <= chars.len(),
    ensures
        from <= closing_quote(chars, from) <= chars.len(),
        forall|j: int| from <= j < closing_quote(chars, from) ==> #[trigger] chars[j] != '"',
        closing_quote(chars, from) < chars.len() ==> chars[closing_quote(chars, from)] == '"',
    decreases chars.len() - from,
{
    if from < chars.len() && chars[from] != '"' {
        lemma_closing_quote_first(chars, from + 1);
    }
}

/// A literal runs from a double quote to the next one: `next` finds the
/// characters between them, every one kept, and reads on after the second;
/// where no second one follows, it reports the missing quote and stops at
/// the end.
pub proof fn lemma_literal_ends_at_next_quote(chars: Seq<char>, p: int, q: int)
    requires
        0 <= p <= q < chars.len(),
        forall|j: int| p <= j < q ==> whitespace(#[trigger] chars[j]),
        !whitespace(chars[q]),
        chars[q] == '"',
        !alphabetic('"'),
    ensures
        forall|e: int|
            q < e < chars.len() && chars[e] == '"' && (forall|j: int|
                q < j < e ==> #[trigger] chars[j] != '"') ==> scan(chars, p) == (
                e + 1,
                Scanned::Text(chars.subrange(q + 1, e)),
            ),
        (forall|j: int| q < j < chars.len() ==> #[trigger] chars[j] != '"') ==> scan(chars, p) == (
            chars.len() as int,
            Scanned::Unterminated,
        ),
{
    lemma_skip_to(chars, p, q);
    lemma_closing_quote_first(chars, q + 1);
    let c = closing_quote(chars, q + 1);
    assert forall|e: int|
        q < e < chars.len() && chars[e] == '"' && (forall|j: int|
            q < j < e ==> #[trigger] chars[j] != '"') implies scan(chars, p) == (
        e + 1,
        Scanned::Text(chars.subrange(q + 1, e)),
    ) by {
        if c < e {
            assert(chars[c] != '"');
        } else if e < c {
            assert(chars[e] != '"');
        }
    }
    if forall|j: int| q < j < chars.len() ==> #[trigger] chars[j] != '"' {
        if c < chars.len() {
            assert(chars[c] != '"');
        }
    }
}

/// A scan through numbers stops at the first character that is none.
proof fn lemma_digits_end_maximal(chars: Seq<char>, from: int)
    requires
        0 <= from <= chars.len(),
    ensures
        from <= digits_end(chars, from) <= chars.len(),
        forall|j: int| from <= j < digits_end(chars, from) ==> numeric(#[trigger] chars[j]),
        digits_end(chars, from) < chars.len() ==> !numeric(chars[digits_end(chars, from)]),
    decreases chars.len() - from,
{
    if from < chars.len() && numeric(chars[from]) {
        lemma_digits_end_maximal(chars, from + 1);
    }
}

/// A number is the whole run of number characters that starts at the first
/// character after white space (where that is no letter and no `_`): `next`
/// finds that run and reads on after it.
pub proof fn lemma_number_is_maximal_run(chars: Seq<char>, p: int, q: int)
    requires
        0 <= p <= q < chars.len(),
        forall|j: int| p <= j < q ==> whitespace(#[trigger] chars[j]),
        !whitespace(chars[q]),
        numeric(chars[q]),
        !alphabetic(chars[q]),
        chars[q] != '_',
        chars[q] != '"',
    ensures
        ({
            let (e, found) = scan(chars, p);
            &&& q < e <= chars.len()
            &&& forall|j: int| q < j < e ==> numeric(#[trigger] chars[j])
            &&& e < chars.len() ==> !numeric(chars[e])
            &&& found == Scanned::Digits(chars.subrange(q, e))
        }),
{
    lemma_skip_to(chars, p, q);
    lemma_digits_end_maximal(chars, q + 1);
}

/// A slash starts a comment where the character two places on is a slash
/// too, and `next` then reads on from that character; any other slash is a
/// `Slash` of one character.
pub proof fn lemma_slash_or_comment_start(chars: Seq<char>, p: int, q: int)
    requires
        0 <= p <= q < chars.len(),
        forall|j: int| p <= j < q ==> whitespace(#[trigger] chars[j]),
        !whitespace(chars[q]),
        chars[q] == '/',
        !alphabetic('/'),
        !numeric('/'),
    ensures
        q + 2 < chars.len() && chars[q + 2] == '/' ==> scan(chars, p) == (
            q + 2,
            Scanned::CommentStart,
        ),
        !(q + 2 < chars.len() && chars[q + 2] == '/') ==> scan(chars, p) == (
            q + 1,
            Scanned::Symbol(Token::Slash),
        ),
{
    lemma_skip_to(chars, p, q);
}

/// Any other character is a token of its own: where the first character
/// after white space starts no name, literal, number or comment, `next`
/// reads that one character and finds its punctuation token.
pub proof fn lemma_other_character_alone(chars: Seq<char>, p: int, q: int)
    requires
        0 <= p <= q < chars.len(),
        forall|j: int| p <= j < q ==> whitespace(#[trigger] chars[j]),
        !whitespace(chars[q]),
        !alphabetic(chars[q]),
        !numeric(chars[q]),
        chars[q] != '_',
        chars[q] != '"',
        !(chars[q] == '/' && q + 2 < chars.len() && chars[q + 2] == '/'),
    ensures
        scan(chars, p) == (q + 1, Scanned::Symbol(punctuation(chars[q]))),
{
    lemma_skip_to(chars, p, q);
}

/// Whether `r` is what `next` returns for the finding `o`.
pub open spec fn yields(r: Option<Result<Token, LexerError>>, o: Scanned) -> bool {
    match o {
        Scanned::Finished => r is None,
        Scanned::Word(w) => r matches Some(Ok(Token::Ident(s))) && s@ == w,
        Scanned::Text(t) => r matches Some(Ok(Token::Literal(s))) && s@ == t,
        Scanned::Unterminated => r matches Some(Err(LexerError::MissingStringQuote)),
        Scanned::Digits(d) => match u64_text_value(d) {
            Some(v) => r == Some(Ok::<Token, LexerError>(Token::Number(v as u64))),
            None => r matches Some(Err(LexerError::NumberParseError(_))),
        },
        Scanned::CommentStart => r == Some(Ok::<Token, LexerError>(Token::CommentStart)),
        Scanned::Symbol(t) => r == Some(Ok::<Token, LexerError>(t)),
    }
}

impl Lexer {
    /// The characters the lexer reads.
    pub closed spec fn source(&self) -> Seq<char> {
        self.source_stream@
    }

    /// The read position.
    pub closed spec fn pos(&self) -> nat {
        self.position as nat
    }

    /// The read position.
    pub fn position(&self) -> (r: usize)
        ensures
            r == self.pos(),
    {
        self.position
    }

    pub fn new(source: Vec<char>) -> (r: Self)
        ensures
            r.source() == source@,
            r.pos() == 0,
    {
        Self { source_stream: source, position: 0 }
    }

    /// The next token, or an error for an unterminated literal or a number
    /// that does not fit; `None` once nothing but white space is left.
    #[verifier::loop_isolation(false)]
    pub fn next(&mut self) -> (r: Option<Result<Token, LexerError>>)
        requires
            old(self).pos() < usize::MAX,
            old(self).source().len() < usize::MAX,
        ensures
            final(self).source() == old(self).source(),
            final(self).pos() == scan(old(self).source(), old(self).pos() as int).0,
            yields(r, scan(old(self).source(), old(self).pos() as int).1),
    {
        let ghost chars = self.source_stream@;
        let ghost p = self.position as int;
        let len = self.source_stream.len();
        let mut c = if self.position < len {
            Some(self.source_stream[self.position])
        } else {
            None
        };
        self.position += 1;

        /* In case stream is ended */
        let mut c = if let Some(c) = c {
            c
        } else {
            return None;
        };

        /* Ignore whitespace */
        while is_whitespace(c)
            invariant
                len == chars.len(),
                self.source_stream@ == chars,
                0 <= p < self.position <= len,
                c == chars[self.position - 1],
                skip_space(chars, p) == skip_space(chars, self.position - 1),
            decreases len - self.position,
        {
            assert(skip_space(chars, self.position - 1) == skip_space(chars, self.position as int));
            c = if self.position < len {
                self.source_stream[self.position]
            } else {
                return None;
            };
            self.position += 1;
        }
        let ghost q = self.position - 1;

        /* In case there is a ident */
        if is_alphabetic(c) || c == '_' {
            let mut s: Vec<char> = Vec::new();
            s.push(c);
            loop
                invariant
                    len == chars.len(),
                    self.source_stream@ == chars,
                    q + 1 <= self.position <= len,
                    name_end(chars, q + 1) == name_end(chars, self.position as int),
                    s@ == chars.subrange(q, self.position as int),
                decreases len - self.position,
            {
                if self.position < len {
                    let x = self.source_stream[self.position];
                    if is_alphanumeric(x) || x == '_' {
                        s.push(x);
                        self.position += 1;
                        assert(s@ =~= chars.subrange(q, self.position as int));
                    } else {
                        break;
                    }
                } else {
                    break;
                }
            }
            return Some(Ok(Token::Ident(string_from_chars(&s))));
        }

        /* In case there is a string */
        if c == '"' {
            let mut s: Vec<char> = Vec::new();
            loop
                invariant
                    len == chars.len(),
                    self.source_stream@ == chars,
                    q + 1 <= self.position <= len,
                    closing_quote(chars, q + 1) == closing_quote(chars, self.position as int),
                    s@ == chars.subrange(q + 1, self.position as int),
                decreases len - self.position,
            {
                if self.position < len {
                    let x = self.source_stream[self.position];
                    if x != '\"' {
                        s.push(x);
                        self.position += 1;
                        assert(s@ =~= chars.subrange(q + 1, self.position as int));
                    } else {
                        self.position += 1;
                        break;
                    }
                } else {
                    return Some(Err(LexerError::MissingStringQuote));
                }
            }
            return Some(Ok(Token::Literal(string_from_chars(&s))));
        }

        /* In case there is a positive number */
        if is_numeric(c) {
            let mut s: Vec<char> = Vec::new();
            s.push(c);
            loop
                invariant
                    len == chars.len(),
                    self.source_stream@ == chars,
                    q + 1 <= self.position <= len,
                    digits_end(chars, q + 1) == digits_end(chars, self.position as int),
                    s@ == chars.subrange(q, self.position as int),
                decreases len - self.position,
            {
                if self.position < len {
                    let x = self.source_stream[self.position];
                    if is_numeric(x) {
                        s.push(x);
                        self.position += 1;
                        assert(s@ =~= chars.subrange(q, self.position as int));
                    } else {
                        break;
                    }
                } else {
                    break;
                }
            }
            let text = string_from_chars(&s);
            let n = match parse_u64(text.as_str()) {
                Ok(v) => v,
                Err(e) => return Some(Err(LexerError::NumberParseError(e))),
            };
            return Some(Ok(Token::Number(n)));
        }

        /* In case a comment starts */
        if c == '/' {
            if self.position + 1 < len && self.source_stream[self.position + 1] == '/' {
                self.position += 1;
                return Some(Ok(Token::CommentStart));
            }
        }

        /* In case of other chars */
        Some(
            Ok(
                match c {
                    '+' => Token::Plus,
                    '-' => Token::Minus,
                    '*' => Token::Asterisk,
                    '/' => Token::Slash,
                    ':' => Token::Colon,
                    ';' => Token::Semicolon,
                    '<' => Token::Lt,
                    '>' => Token::Gt,
                    '=' => Token::Eq,
                    '[' => Token::OpenBracket,
                    ']' => Token::CloseBracket,
                    '^' => Token::Caret,
                    '`' => Token::GraveAccent,
                    '{' => Token::OpenBrace,
                    '}' => Token::CloseBrace,
                    '|' => Token::VerticalBar,
                    '~' => Token::Tilde,
                    '(' => Token::OpenParentesis,
                    ')' => Token::CloseParenthesis,
                    '@' => Token::At,
                    '\n' => Token::EndOfLine,
                    _ => Token::Unknown,
                },
            ),
        )
    }
}

} // verus!
