use compiler::error::{LexicalError, LexicalErrorType};
use compiler::location::Location;
use compiler::scanner::Lexer;
use compiler::token::Tok;
use compiler::types::RGBA;

fn toks(src: &str) -> Vec<Tok> {
    let mut lexer = Lexer::new(src, 4);
    let all = lexer.collect_tokens().unwrap();
    all.into_iter().map(|r| r.ok().unwrap().1).collect()
}

fn ident(name: &str) -> Tok {
    Tok::Identifier { name: String::from(name) }
}

#[test]
fn scan_declaration_line() {
    let src = r#"
varip int<int> x = 2
"#
    .trim_start();
    assert_eq!(
        toks(src),
        vec![
            ident("varip"),
            ident("int"),
            Tok::Less,
            ident("int"),
            Tok::Greater,
            ident("x"),
            Tok::Equal,
            Tok::Int { value: 2 },
            Tok::NewLine,
        ]
    );
}

#[test]
fn scan_spans() {
    let mut lexer = Lexer::new("ab  cd", 4);
    let first = lexer.next().unwrap().ok().unwrap();
    assert_eq!(first, (Location::new(1, 1), ident("ab"), Location::new(1, 3)));
    let second = lexer.next().unwrap().ok().unwrap();
    assert_eq!(second.1, ident("cd"));
    assert_eq!(second.0, Location::new(1, 5));
    assert!(lexer.next().is_none());
}

#[test]
fn scan_indentation_blocks() {
    assert_eq!(
        toks("if x\n    y\nz\n"),
        vec![
            Tok::If,
            ident("x"),
            Tok::NewLine,
            Tok::Indent,
            ident("y"),
            Tok::NewLine,
            Tok::Dedent,
            ident("z"),
            Tok::NewLine,
        ]
    );
}

#[test]
fn scan_open_blocks_close_at_end() {
    let all = toks("a\n    b\n        c");
    let indents = all.iter().filter(|t| **t == Tok::Indent).count();
    let dedents = all.iter().filter(|t| **t == Tok::Dedent).count();
    assert_eq!(indents, 2);
    assert_eq!(dedents, 2);
    assert_eq!(all[all.len() - 1], Tok::Dedent);
}

#[test]
fn scan_tabs_count_as_indentation() {
    assert_eq!(
        toks("if a\n\tb\n"),
        // At the last line break only spaces follow, which the lexer measures as
        // the whole source length; here that falls between one and two further
        // indentation steps, so the line break is skipped.
        vec![Tok::If, ident("a"), Tok::NewLine, Tok::Indent, ident("b"), Tok::Dedent]
    );
}

#[test]
fn scan_comment_line() {
    let mut lexer = Lexer::new("a // note\nb", 4);
    assert_eq!(lexer.next().unwrap().ok().unwrap().1, ident("a"));
    assert_eq!(lexer.next().unwrap().ok().unwrap().1, Tok::NewLine);
    let b = lexer.next().unwrap().ok().unwrap();
    assert_eq!(b.1, ident("b"));
    assert_eq!(b.0.row(), 2);
    assert_eq!(b.0.column(), 1);
    assert!(lexer.next().is_none());
}

#[test]
fn scan_rows_after_comments() {
    let mut lexer = Lexer::new("a // one
// two
b
c", 4);
    let mut rows = Vec::new();
    while let Some(r) = lexer.next() {
        let (l, t, _) = r.ok().unwrap();
        if t != Tok::NewLine {
            rows.push((t, l.row()));
        }
    }
    assert_eq!(rows, vec![(ident("a"), 1), (ident("b"), 3), (ident("c"), 4)]);
}

#[test]
fn scan_comment_keeps_line_break_before_continuation() {
    // Without the comment the deeper line continues the first one.
    assert_eq!(toks("a\n      b"), vec![ident("a"), ident("b")]);
    // The line break that closes a comment always ends the line.
    assert_eq!(toks("a // c\n      b"), vec![ident("a"), Tok::NewLine, ident("b")]);
}

#[test]
fn scan_comment_to_end() {
    assert_eq!(toks("a // tail"), vec![ident("a")]);
}

#[test]
fn scan_keywords() {
    assert_eq!(
        toks("if else series const type enum var for to in by while switch import not and or true false"),
        vec![
            Tok::If,
            Tok::Else,
            Tok::Series,
            Tok::Const,
            Tok::Type,
            Tok::Enum,
            Tok::Var,
            Tok::For,
            Tok::To,
            Tok::In,
            Tok::By,
            Tok::While,
            Tok::Switch,
            Tok::Import,
            Tok::Not,
            Tok::And,
            Tok::Or,
            Tok::True,
            Tok::False,
        ]
    );
}

#[test]
fn scan_operators() {
    assert_eq!(
        toks("+ += - -= / /= * *= ! != = == => < <= > >= : := \\ ? ( ) [ ] @ , % ;"),
        vec![
            Tok::Plus,
            Tok::EqualAdd,
            Tok::Minus,
            Tok::EqualSub,
            Tok::Slash,
            Tok::EqualDiv,
            Tok::Asterisk,
            Tok::EqualMul,
            Tok::ExclamationMark,
            Tok::NotEqual,
            Tok::Equal,
            Tok::DoubleEqual,
            Tok::Follow,
            Tok::Less,
            Tok::Lte,
            Tok::Greater,
            Tok::Gte,
            Tok::Colon,
            Tok::ColonEqual,
            Tok::Backslash,
            Tok::QuestionMark,
            Tok::OpenParenthesis,
            Tok::CloseParenthesis,
            Tok::OpenBrackets,
            Tok::CloseBrackets,
            Tok::At,
            Tok::Comma,
            Tok::Mod,
            Tok::Semicolon,
        ]
    );
}

#[test]
fn scan_numbers() {
    assert_eq!(
        toks("42 1.5 .5 7."),
        vec![
            Tok::Int { value: 42 },
            Tok::Float { literal: String::from("1.5") },
            Tok::Float { literal: String::from(".5") },
            Tok::Float { literal: String::from("7.") },
        ]
    );
    assert_eq!(toks("9223372036854775807"), vec![Tok::Int { value: 9223372036854775807 }]);
}

#[test]
fn scan_number_with_two_points() {
    let mut lexer = Lexer::new("x 1.2.3", 4);
    assert_eq!(lexer.next().unwrap().ok().unwrap().1, ident("x"));
    let err = lexer.next().unwrap().err().unwrap();
    assert_eq!(
        err,
        LexicalError { error: LexicalErrorType::NumberError, location: Location::new(1, 3) }
    );
    assert_eq!(lexer.next().unwrap().ok().unwrap().1, Tok::Int { value: 3 });
}

#[test]
fn scan_int_out_of_range_cannot_complete() {
    let mut lexer = Lexer::new("99999999999999999999", 4);
    assert!(lexer.try_next().is_none());
    assert!(lexer.try_next().is_none());
    let mut again = Lexer::new("99999999999999999999", 4);
    assert!(again.collect_tokens().is_none());
}

#[test]
fn scan_strings() {
    assert_eq!(
        toks(r#""a\"b" 'it\'s' "open"#),
        vec![
            Tok::String { value: String::from("a\"b") },
            Tok::String { value: String::from("it's") },
            Tok::String { value: String::from("open") },
        ]
    );
}

#[test]
fn scan_hash_colours() {
    assert_eq!(
        toks("#ff0000 #11223344 #AbCdEf"),
        vec![
            Tok::HashColor(RGBA(255, 0, 0, 255)),
            Tok::HashColor(RGBA(0x11, 0x22, 0x33, 0x44)),
            Tok::HashColor(RGBA(0xab, 0xcd, 0xef, 255)),
        ]
    );
}

#[test]
fn scan_hash_colour_errors() {
    let mut lexer = Lexer::new("#fff", 4);
    let err = lexer.next().unwrap().err().unwrap();
    assert_eq!(
        err,
        LexicalError { error: LexicalErrorType::HashColorError, location: Location::new(1, 6) }
    );
    let mut lexer = Lexer::new("#ffg0", 4);
    let err = lexer.next().unwrap().err().unwrap();
    assert_eq!(
        err,
        LexicalError { error: LexicalErrorType::HashColorError, location: Location::new(1, 5) }
    );
}

#[test]
fn scan_function_head_marker() {
    assert_eq!(
        toks("f(x) =>\n"),
        vec![
            Tok::FunctionMarker,
            ident("f"),
            Tok::OpenParenthesis,
            ident("x"),
            Tok::CloseParenthesis,
            Tok::Follow,
            Tok::NewLine,
        ]
    );
}

#[test]
fn scan_tuple_target_marker() {
    assert_eq!(
        toks("[a, b] = c\n"),
        vec![
            Tok::UnpackTupleMarker,
            Tok::OpenBrackets,
            ident("a"),
            Tok::Comma,
            ident("b"),
            Tok::CloseBrackets,
            Tok::Equal,
            ident("c"),
            Tok::NewLine,
        ]
    );
}

#[test]
fn scan_end_is_final() {
    let mut lexer = Lexer::new("a", 4);
    assert_eq!(lexer.next().unwrap().ok().unwrap().1, ident("a"));
    assert!(lexer.next().is_none());
    assert!(lexer.next().is_none());
    assert!(matches!(lexer.try_next(), Some(None)));
}

#[test]
fn scan_zero_width_indentation_cannot_complete() {
    let mut lexer = Lexer::new(" b", 0);
    assert!(lexer.try_next().is_none());
    let mut lexer = Lexer::new("b", 0);
    assert_eq!(lexer.next().unwrap().ok().unwrap().1, Tok::Indent);
}

#[test]
fn scan_try_new_accepts_source() {
    assert!(Lexer::try_new("x = 1", 4).is_some());
}

#[test]
fn scan_empty_source() {
    assert!(toks("").is_empty());
    assert!(toks("\n\n").is_empty());
}

#[test]
fn scan_from_marked_text() {
    // Text given as already marked is not rewritten: the NUL marker is read.
    let mut lexer = Lexer::from_marked("\0function f", 4).unwrap();
    assert_eq!(lexer.next().unwrap().ok().unwrap().1, Tok::FunctionMarker);
    assert_eq!(lexer.next().unwrap().ok().unwrap().1, ident("f"));
    assert!(lexer.next().is_none());
    // A function head without the marker stays as written.
    let mut plain = Lexer::from_marked("f(x) =>", 4).unwrap();
    assert_eq!(plain.next().unwrap().ok().unwrap().1, ident("f"));
}

#[test]
fn scan_tab_counts_as_spaces() {
    let mut a = Lexer::from_marked("if a\n\tb", 4).unwrap().collect_tokens().unwrap();
    let mut b = Lexer::from_marked("if a\n    b", 4).unwrap().collect_tokens().unwrap();
    assert_eq!(a.len(), b.len());
    while let (Some(x), Some(y)) = (a.pop(), b.pop()) {
        assert_eq!(x.ok().unwrap(), y.ok().unwrap());
    }
}

#[test]
fn scan_end_closes_each_level() {
    let mut lexer = Lexer::new("a\n    b\n        c", 4);
    let mut seen = Vec::new();
    while let Some(r) = lexer.next() {
        seen.push(r.ok().unwrap());
    }
    let n = seen.len();
    assert_eq!(seen[n - 1].1, Tok::Dedent);
    assert_eq!(seen[n - 2].1, Tok::Dedent);
    assert_eq!(seen[n - 1].0, seen[n - 2].0);
    let mut depth: i64 = 0;
    for t in &seen {
        if t.1 == Tok::Indent {
            depth += 1;
        }
        if t.1 == Tok::Dedent {
            depth -= 1;
        }
        assert!(depth >= 0);
    }
    assert_eq!(depth, 0);
}
