use crate::types::RGBA;
use vstd::prelude::*;

verus! {

/// A token of NineScript source, as the grammar consumes it.
#[derive(Clone, Debug, PartialEq)]
pub enum Tok {
    /* markers that source rewriting puts in front of constructs */
    FunctionMarker,
    UnpackTupleMarker,
    /* keywords */
    If,
    Else,
    Series,
    Const,
    Type,
    Enum,
    Var,
    For,
    To,
    In,
    By,
    While,
    Switch,
    Import,
    Not,
    And,
    Or,
    True,
    False,
    /* layout */
    Indent,
    Dedent,
    NewLine,
    EndOfFile,
    /* literals and names */
    Int { value: i64 },
    /// A number with a decimal point, as written in the source.
    Float { literal: String },
    String { value: String },
    HashColor(RGBA),
    Identifier { name: String },
    /* operators and punctuation */
    Plus,
    EqualAdd,
    Minus,
    EqualSub,
    Slash,
    EqualDiv,
    Asterisk,
    EqualMul,
    Backslash,
    QuestionMark,
    NotEqual,
    ExclamationMark,
    Equal,
    DoubleEqual,
    Follow,
    Lte,
    Less,
    Gte,
    Greater,
    OpenParenthesis,
    CloseParenthesis,
    OpenBrackets,
    CloseBrackets,
    At,
    Hash,
    Dot,
    Comma,
    Mod,
    Colon,
    ColonEqual,
    Semicolon,
}

/// What a token means, with the text of its payload as a sequence of
/// characters: the form in which contracts speak of tokens.
pub enum Lexeme {
    /// A token without payload.
    Plain(Tok),
    Int(int),
    Float(Seq<char>),
    Str(Seq<char>),
    Color(RGBA),
    Name(Seq<char>),
}

/// The meaning of a token.
pub open spec fn lexeme_of(t: Tok) -> Lexeme {
    match t {
        Tok::Int { value } => Lexeme::Int(value as int),
        Tok::Float { literal } => Lexeme::Float(literal@),
        Tok::String { value } => Lexeme::Str(value@),
        Tok::HashColor(c) => Lexeme::Color(c),
        Tok::Identifier { name } => Lexeme::Name(name@),
        _ => Lexeme::Plain(t),
    }
}

} // verus!
