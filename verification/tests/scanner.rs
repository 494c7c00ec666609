use gmml::error::LexError;
use gmml::numeral::Numeral;
use gmml::scanner::{scan, Scanner};
use gmml::token::{Punct, Token};

fn identifier(name: &str) -> Token {
    Token::Identifier(name.to_string())
}

fn number(text: &str) -> Token {
    Token::Number(Numeral::parse(text).unwrap())
}

fn text(s: &str) -> Token {
    Token::String(s.to_string())
}

#[test]
fn blanks_are_one_token() {
    assert_eq!(scan(" \t  "), Ok(vec![Token::Whitespace]));
    assert_eq!(scan("a \t b"), Ok(vec![identifier("a"), Token::Whitespace, identifier("b")]));
}

#[test]
fn a_comment_is_whitespace_and_leaves_the_newline() {
    assert_eq!(scan("; note\n"), Ok(vec![Token::Whitespace, Token::Newline]));
    assert_eq!(scan(";"), Ok(vec![Token::Whitespace]));
    assert_eq!(
        scan("a ; x = \"1\n b"),
        Ok(vec![
            identifier("a"),
            Token::Whitespace,
            Token::Whitespace,
            Token::Newline,
            Token::Whitespace,
            identifier("b"),
        ])
    );
}

#[test]
fn a_string_has_no_escapes() {
    assert_eq!(scan("\"\""), Ok(vec![text("")]));
    assert_eq!(scan("\"a\\\"b"), Ok(vec![text("a\\"), identifier("b")]));
    assert_eq!(scan("\"two\nlines ; and more\""), Ok(vec![text("two\nlines ; and more")]));
}

#[test]
fn a_string_must_be_closed() {
    assert_eq!(scan("\""), Err(LexError::UnterminatedString));
    assert_eq!(scan("a \"bc"), Err(LexError::UnterminatedString));
}

#[test]
fn every_mark_is_a_token() {
    assert_eq!(
        scan(",.()[]{}:=>-"),
        Ok(vec![
            Token::Symbol(Punct::Comma),
            Token::Symbol(Punct::Dot),
            Token::Symbol(Punct::LeftParen),
            Token::Symbol(Punct::RightParen),
            Token::Symbol(Punct::LeftBracket),
            Token::Symbol(Punct::RightBracket),
            Token::Symbol(Punct::LeftBrace),
            Token::Symbol(Punct::RightBrace),
            Token::Symbol(Punct::Colon),
            Token::Symbol(Punct::Equals),
            Token::Symbol(Punct::Greater),
            Token::Symbol(Punct::Minus),
        ])
    );
}

#[test]
fn a_minus_and_a_greater_make_an_arrow() {
    assert_eq!(scan("->"), Ok(vec![Token::Arrow]));
    assert_eq!(scan("-->"), Ok(vec![Token::Symbol(Punct::Minus), Token::Arrow]));
    assert_eq!(
        scan("- >"),
        Ok(vec![Token::Symbol(Punct::Minus), Token::Whitespace, Token::Symbol(Punct::Greater)])
    );
    assert_eq!(scan("-"), Ok(vec![Token::Symbol(Punct::Minus)]));
}

#[test]
fn identifiers_hold_letters_and_underscores_only() {
    assert_eq!(scan("_a_B"), Ok(vec![identifier("_a_B")]));
    assert_eq!(scan("ab12"), Ok(vec![identifier("ab"), number("12")]));
    assert_eq!(scan("12ab"), Ok(vec![number("12"), identifier("ab")]));
}

#[test]
fn letters_outside_ascii_are_letters() {
    assert_eq!(scan("\u{e9}t\u{e9}"), Ok(vec![identifier("\u{e9}t\u{e9}")]));
    assert_eq!(scan("\u{4eac}_x"), Ok(vec![identifier("\u{4eac}_x")]));
    assert_eq!(scan("\u{20ac}"), Err(LexError::UnexpectedCharacter('\u{20ac}')));
    assert_eq!(scan("a\u{1f49d}"), Err(LexError::UnexpectedCharacter('\u{1f49d}')));
}

#[test]
fn a_number_takes_one_point() {
    assert_eq!(scan("123.45"), Ok(vec![number("123.45")]));
    assert_eq!(scan("1."), Ok(vec![number("1.")]));
    assert_eq!(scan("1.2.3"), Ok(vec![number("1.2"), Token::Symbol(Punct::Dot), number("3")]));
    assert_eq!(
        scan("1..2"),
        Ok(vec![number("1."), Token::Symbol(Punct::Dot), number("2")])
    );
    assert_eq!(scan(".5"), Ok(vec![Token::Symbol(Punct::Dot), number("5")]));
}

#[test]
fn other_characters_start_no_token() {
    assert_eq!(scan("a + b"), Err(LexError::UnexpectedCharacter('+')));
    assert_eq!(scan("\r\n"), Err(LexError::UnexpectedCharacter('\r')));
    assert_eq!(scan("#"), Err(LexError::UnexpectedCharacter('#')));
}

#[test]
fn the_scanner_hands_out_tokens_on_demand() {
    let mut scanner = Scanner::new("x -> y\n".to_string());
    assert!(!scanner.is_done());
    assert_eq!(scanner.next_token(), Some(Ok(identifier("x"))));
    assert_eq!(scanner.next_token(), Some(Ok(Token::Whitespace)));
    assert_eq!(scanner.next_token(), Some(Ok(Token::Arrow)));
    assert_eq!(scanner.collect(), Ok(vec![Token::Whitespace, identifier("y"), Token::Newline]));
    assert!(scanner.is_done());
    assert_eq!(scanner.next_token(), None);
    assert_eq!(scanner.next_token(), None);
}

#[test]
fn an_error_is_the_last_thing_the_scanner_says() {
    let mut scanner = Scanner::new("a ? b".to_string());
    assert_eq!(scanner.next_token(), Some(Ok(identifier("a"))));
    assert_eq!(scanner.next_token(), Some(Ok(Token::Whitespace)));
    assert_eq!(scanner.next_token(), Some(Err(LexError::UnexpectedCharacter('?'))));
    assert!(scanner.is_done());
    assert_eq!(scanner.next_token(), None);
}

#[test]
fn more_blanks_where_blanks_are_change_no_token() {
    assert_eq!(scan("a -> b\n"), scan("a   ->\t \tb\n"));
    assert_eq!(scan("k = { a: 1 }"), scan("k  =  {   a:  1  }"));
}

#[test]
fn a_numeral_denotes_the_number_of_its_text() {
    let tokens = scan("3.25").unwrap();
    match &tokens[0] {
        Token::Number(n) => {
            let expected: f64 = "3.25".parse().unwrap();
            let read: f64 = n.as_str().parse().unwrap();
            assert_eq!(read, expected);
            assert_eq!(read, 3.25);
        }
        other => panic!("not a number: {:?}", other),
    }
}
