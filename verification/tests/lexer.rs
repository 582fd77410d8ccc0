use compiler::lexer::{Lexer, LexerError, Token};

fn flat<X>(v: Vec<Result<Token, X>>) -> Result<Vec<Token>, X> {
    let mut v1 = Vec::with_capacity(v.len());
    for i in v {
        v1.push(match i {
            Ok(x) => x,
            Err(e) => return Err(e),
        });
    }
    Ok(v1)
}

fn drain(mut lexer: Lexer) -> Vec<Result<Token, LexerError>> {
    let mut out = Vec::new();
    while let Some(t) = lexer.next() {
        out.push(t);
    }
    out
}

fn plain_tokens(source: &str) -> Vec<Token> {
    flat(drain(Lexer::new(source.chars().collect()))).ok().unwrap()
}

#[test]
fn test_lexer_basic() {
    let source = r#"
test=123
    "#;

    let lexer = Lexer::new(source.chars().collect());

    let r = flat(drain(lexer));
    assert!(r.is_ok());

    let r = r.ok().unwrap();
    assert_eq!(Token::Ident(String::from("test")), r[0]);
    assert_eq!(Token::Eq, r[1]);
    assert_eq!(Token::Number(123), r[2]);
}

#[test]
fn plain_literal_and_punctuation() {
    let r = plain_tokens("say(\"hi there\") + x_1;");
    assert_eq!(
        r,
        vec![
            Token::Ident(String::from("say")),
            Token::OpenParentesis,
            Token::Literal(String::from("hi there")),
            Token::CloseParenthesis,
            Token::Plus,
            Token::Ident(String::from("x_1")),
            Token::Semicolon,
        ]
    );
}

#[test]
fn plain_all_single_symbols() {
    let r = plain_tokens("- * / : < > [ ] ^ ` { } | ~ @ $");
    assert_eq!(
        r,
        vec![
            Token::Minus,
            Token::Asterisk,
            Token::Slash,
            Token::Colon,
            Token::Lt,
            Token::Gt,
            Token::OpenBracket,
            Token::CloseBracket,
            Token::Caret,
            Token::GraveAccent,
            Token::OpenBrace,
            Token::CloseBrace,
            Token::VerticalBar,
            Token::Tilde,
            Token::At,
            Token::Unknown,
        ]
    );
}

#[test]
fn plain_comment_start_looks_two_ahead() {
    // Whether a comment starts is decided by the character after the next one.
    assert_eq!(plain_tokens("/x/"), vec![Token::CommentStart, Token::Slash]);
    assert_eq!(
        plain_tokens("//x"),
        vec![Token::Slash, Token::Slash, Token::Ident(String::from("x"))]
    );
}

#[test]
fn plain_unterminated_literal() {
    let r = drain(Lexer::new("\"open".chars().collect()));
    assert_eq!(r.len(), 1);
    assert!(matches!(r[0], Err(LexerError::MissingStringQuote)));
}

#[test]
fn plain_number_too_large() {
    let r = drain(Lexer::new("99999999999999999999999 7".chars().collect()));
    assert_eq!(r.len(), 2);
    assert!(matches!(r[0], Err(LexerError::NumberParseError(_))));
    assert!(matches!(r[1], Ok(Token::Number(7))));
}

#[test]
fn plain_number_largest() {
    assert_eq!(
        plain_tokens("18446744073709551615"),
        vec![Token::Number(18446744073709551615)]
    );
}

#[test]
fn plain_finished_stays_finished() {
    let mut lexer = Lexer::new("a  ".chars().collect());
    assert_eq!(lexer.next().unwrap().ok().unwrap(), Token::Ident(String::from("a")));
    assert!(lexer.next().is_none());
    assert!(lexer.next().is_none());
    assert!(lexer.next().is_none());
}

#[test]
fn plain_empty_and_blank() {
    assert!(plain_tokens("").is_empty());
    assert!(plain_tokens(" \n\t ").is_empty());
}

#[test]
fn plain_item_count_within_length() {
    let source: Vec<char> = "a+b \"c\" 12".chars().collect();
    let n = source.len();
    let items = drain(Lexer::new(source));
    assert_eq!(items.len(), 5);
    assert!(items.len() <= n);
}

#[test]
fn plain_position_advances() {
    let mut lexer = Lexer::new("ab c".chars().collect());
    assert_eq!(lexer.position(), 0);
    lexer.next();
    assert_eq!(lexer.position(), 2);
    lexer.next();
    assert_eq!(lexer.position(), 4);
    assert!(lexer.next().is_none());
    assert_eq!(lexer.position(), 5);
}
