use gmml::error::{Error, Expected, ParseError};
use gmml::parse::parse_source;
use gmml::scanner::scan;
use gmml::token::{Punct, Token};

const SOURCE: &str = "[g]\na->b:{w:1,v:f(x,\"y\")}\nk=2.5;note\n\n[h]\nleaf\n";

fn with_blanks(source: &str, at: usize, blanks: &str) -> String {
    let mut text = String::new();
    text.push_str(&source[..at]);
    text.push_str(blanks);
    text.push_str(&source[at..]);
    text
}

#[test]
fn blanks_between_tokens_change_no_document() {
    let plain = parse_source(SOURCE);
    assert!(plain.is_ok());
    // Every offset at which a token starts, but those inside the brackets of
    // a header and the one between a name and its parenthesis.
    let cuts = [
        0, 3, 4, 5, 7, 8, 9, 10, 11, 12, 13, 14, 15, 16, 18, 19, 20, 23, 24, 25, 26, 27, 28, 31,
        36, 37, 38, 41, 42, 46, 47,
    ];
    for cut in cuts {
        assert_eq!(parse_source(&with_blanks(SOURCE, cut, " \t ")), plain, "at {}", cut);
    }
}

#[test]
fn blanks_in_a_comment_or_a_run_of_blanks_change_no_token() {
    let source = "a  \t b ; a comment\nc";
    let plain = scan(source);
    assert!(plain.is_ok());
    for cut in [2, 3, 4, 5, 8, 9, 12, 18] {
        assert_eq!(scan(&with_blanks(source, cut, "\t  ")), plain, "at {}", cut);
    }
}

#[test]
fn a_header_takes_no_blanks_inside() {
    assert_eq!(
        parse_source("[ g]\n"),
        Err(Error::Parse(ParseError::ExpectedToken {
            expected: Expected::Identifier,
            found: Some(Token::Whitespace),
        }))
    );
    assert_eq!(
        parse_source("[g ]\n"),
        Err(Error::Parse(ParseError::ExpectedToken {
            expected: Expected::Symbol(Punct::RightBracket),
            found: Some(Token::Whitespace),
        }))
    );
}

#[test]
fn a_message_takes_no_blank_before_its_parenthesis() {
    assert!(parse_source("[m]\nk = f(x)\n").is_ok());
    assert_eq!(
        parse_source("[m]\nk = f (x)\n"),
        Err(Error::Parse(ParseError::ExpectedToken {
            expected: Expected::Newline,
            found: Some(Token::Symbol(Punct::LeftParen)),
        }))
    );
}

#[test]
fn blanks_inside_a_token_change_it() {
    assert_ne!(scan("ab"), scan("a b"));
    assert_ne!(scan("\"ab\""), scan("\"a b\""));
    assert_ne!(scan("->"), scan("- >"));
    assert_ne!(scan("1.5"), scan("1. 5"));
}
