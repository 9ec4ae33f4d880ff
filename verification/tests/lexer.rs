use warden::lexer::{has_malformed_number, Lexer, Token};
use warden::number::Number;

fn num(text: &str) -> Token {
    Token::Number(Number::from_literal(text))
}

#[test]
fn tokenizes_let_binding() {
    let mut lexer = Lexer::new("let a = 5;");
    let tokens = lexer.tokenize().unwrap();
    assert_eq!(
        tokens,
        vec![
            Token::Let,
            Token::Ident("a".to_string()),
            Token::Equals,
            num("5.0"),
            Token::Semicolon,
            Token::Eof,
        ]
    );
}

#[test]
fn tokenizes_function_call() {
    let mut lexer = Lexer::new("consume(s);");
    let tokens = lexer.tokenize().unwrap();
    assert_eq!(
        tokens,
        vec![
            Token::Ident("consume".to_string()),
            Token::LParen,
            Token::Ident("s".to_string()),
            Token::RParen,
            Token::Semicolon,
            Token::Eof,
        ]
    );
}

#[test]
fn rejects_unknown_character() {
    let mut lexer = Lexer::new("let a = @;");
    assert!(lexer.tokenize().is_err());
}

#[test]
fn unknown_character_message_names_the_character() {
    let mut lexer = Lexer::new("let a = @;");
    assert_eq!(lexer.tokenize().unwrap_err(), "unexpected character: '@'");
}

#[test]
fn tokenizes_every_keyword_and_symbol() {
    let mut lexer = Lexer::new("let fn print struct if else while = ; ( ) { } , . :");
    let tokens = lexer.tokenize().unwrap();
    assert_eq!(
        tokens,
        vec![
            Token::Let,
            Token::Fn,
            Token::Print,
            Token::Struct,
            Token::If,
            Token::Else,
            Token::While,
            Token::Equals,
            Token::Semicolon,
            Token::LParen,
            Token::RParen,
            Token::LBrace,
            Token::RBrace,
            Token::Comma,
            Token::Dot,
            Token::Colon,
            Token::Eof,
        ]
    );
}

#[test]
fn keyword_prefix_is_an_identifier() {
    let mut lexer = Lexer::new("letter fnord _x x1");
    let tokens = lexer.tokenize().unwrap();
    assert_eq!(
        tokens,
        vec![
            Token::Ident("letter".to_string()),
            Token::Ident("fnord".to_string()),
            Token::Ident("_x".to_string()),
            Token::Ident("x1".to_string()),
            Token::Eof,
        ]
    );
}

#[test]
fn number_literals_are_kept_exactly_in_canonical_form() {
    let mut lexer = Lexer::new("05.50 7. 0.25 000");
    let tokens = lexer.tokenize().unwrap();
    assert_eq!(tokens.len(), 5);
    match &tokens[0] {
        Token::Number(n) => assert_eq!(n.text(), "5.5"),
        other => panic!("expected a number, found {:?}", other),
    }
    match &tokens[1] {
        Token::Number(n) => assert_eq!(n.text(), "7.0"),
        other => panic!("expected a number, found {:?}", other),
    }
    match &tokens[2] {
        Token::Number(n) => assert_eq!(n.text(), "0.25"),
        other => panic!("expected a number, found {:?}", other),
    }
    match &tokens[3] {
        Token::Number(n) => {
            assert_eq!(n.text(), "0.0");
            assert!(n.is_zero());
        }
        other => panic!("expected a number, found {:?}", other),
    }
}

#[test]
fn skips_whitespace_of_every_kind_and_line_comments() {
    let mut lexer = Lexer::new("\tlet\r\n a // a comment ; ( )\n=\u{a0}1;// last");
    let tokens = lexer.tokenize().unwrap();
    assert_eq!(
        tokens,
        vec![
            Token::Let,
            Token::Ident("a".to_string()),
            Token::Equals,
            num("1"),
            Token::Semicolon,
            Token::Eof,
        ]
    );
}

#[test]
fn a_single_slash_is_an_unknown_character() {
    let mut lexer = Lexer::new("a / b");
    assert_eq!(lexer.tokenize().unwrap_err(), "unexpected character: '/'");
}

#[test]
fn identifiers_may_hold_letters_and_digits_beyond_ascii() {
    let mut lexer = Lexer::new("let été = x²;");
    let tokens = lexer.tokenize().unwrap();
    assert_eq!(
        tokens,
        vec![
            Token::Let,
            Token::Ident("été".to_string()),
            Token::Equals,
            Token::Ident("x²".to_string()),
            Token::Semicolon,
            Token::Eof,
        ]
    );
}

#[test]
fn empty_source_is_just_eof() {
    let mut lexer = Lexer::new("  // nothing here");
    assert_eq!(lexer.tokenize().unwrap(), vec![Token::Eof]);
}

#[test]
fn lexed_tokens_end_with_eof_and_hold_it_nowhere_else() {
    for src in ["let a = 5;", "", "fn f(x) { print(x); }", "a.b.c", "1.5 2"] {
        let tokens = Lexer::new(src).tokenize().unwrap();
        assert_eq!(tokens.last(), Some(&Token::Eof));
        assert_eq!(tokens.iter().filter(|t| **t == Token::Eof).count(), 1);
    }
}

#[test]
fn number_with_two_dots_is_malformed() {
    assert!(has_malformed_number("let a = 1.2.3;"));
    assert!(has_malformed_number("1..2"));
    assert!(!has_malformed_number("let a = 1.2;"));
    assert!(!has_malformed_number("a.b.c"));
    // lexing stops at the bad character before it reaches the literal
    assert!(!has_malformed_number("@ 1.2.3"));
}

#[test]
fn every_unicode_white_space_character_is_skipped() {
    let spaces = [
        '\u{9}', '\u{a}', '\u{b}', '\u{c}', '\u{d}', '\u{20}', '\u{85}', '\u{a0}', '\u{1680}', '\u{2000}',
        '\u{2005}', '\u{200a}', '\u{2028}', '\u{2029}', '\u{202f}', '\u{205f}', '\u{3000}',
    ];
    for c in spaces {
        assert!(c.is_whitespace());
        let src = format!("let{}a = 1;", c);
        let tokens = Lexer::new(&src).tokenize().unwrap();
        assert_eq!(tokens.len(), 6, "{:?}", c);
    }
    // a zero-width space is no white space
    let mut lexer = Lexer::new("let\u{200b}a = 1;");
    assert!(lexer.tokenize().is_err());
}
