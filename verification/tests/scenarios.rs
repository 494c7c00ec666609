use gmml::error::{Continuation, Error, Expected, LexError, ParseError};
use gmml::numeral::Numeral;
use gmml::parse::parse_source;
use gmml::token::{Punct, Token};
use gmml::value::Value;

fn symbol(name: &str) -> Value {
    Value::Symbol(name.to_string())
}

fn string(text: &str) -> Value {
    Value::String(text.to_string())
}

fn number(text: &str) -> Value {
    Value::Number(Numeral::parse(text).unwrap())
}

fn pair(key: Value, value: Value) -> Value {
    Value::Pair(Box::new(key), Box::new(value))
}

fn edge(from: Value, to: Value) -> Value {
    Value::Edge(Box::new(from), Box::new(to))
}

#[test]
fn a_bare_name_is_a_leaf() {
    let doc = parse_source("[a]\nleaf\n").unwrap();
    assert_eq!(doc.len(), 1);
    assert_eq!(doc.get("a"), Some(&Value::Vec(vec![symbol("leaf")])));
}

#[test]
fn an_arrow_makes_an_edge() {
    let doc = parse_source("[g]\nx -> y\n").unwrap();
    assert_eq!(doc.len(), 1);
    assert_eq!(doc.get("g"), Some(&Value::Vec(vec![edge(symbol("x"), symbol("y"))])));
}

#[test]
fn an_assignment_makes_a_pair() {
    let doc = parse_source("[cfg]\nname = \"hello\"\n").unwrap();
    assert_eq!(doc.len(), 1);
    assert_eq!(doc.get("cfg"), Some(&Value::Vec(vec![pair(symbol("name"), string("hello"))])));
}

#[test]
fn a_struct_is_the_vector_of_its_pairs() {
    let doc = parse_source("[s]\nv = { a: 1, b: 2 }\n").unwrap();
    assert_eq!(doc.len(), 1);
    assert_eq!(
        doc.get("s"),
        Some(&Value::Vec(vec![pair(
            symbol("v"),
            Value::Vec(vec![pair(symbol("a"), number("1")), pair(symbol("b"), number("2"))]),
        )]))
    );
}

#[test]
fn an_open_string_is_a_lex_error() {
    assert_eq!(parse_source("[a]\nx = \"oops\n"), Err(Error::Lex(LexError::UnterminatedString)));
}

#[test]
fn a_header_without_its_bracket_is_a_parse_error() {
    assert_eq!(
        parse_source("a]\n"),
        Err(Error::Parse(ParseError::ExpectedToken {
            expected: Expected::Symbol(Punct::LeftBracket),
            found: Some(Token::Identifier("a".to_string())),
        }))
    );
}

#[test]
fn the_first_of_two_blocks_with_one_name_stays() {
    let doc = parse_source("[a]\nfirst\n\n[b]\nother\n\n[a]\nsecond\n").unwrap();
    assert_eq!(doc.len(), 2);
    assert_eq!(doc.get("a"), Some(&Value::Vec(vec![symbol("first")])));
    assert_eq!(doc.get("b"), Some(&Value::Vec(vec![symbol("other")])));
    assert_eq!(doc.entry(0).unwrap().0, "a");
    assert_eq!(doc.entry(1).unwrap().0, "b");
    assert!(doc.contains("a"));
    assert!(!doc.contains("c"));
    assert_eq!(doc.get("c"), None);
}

#[test]
fn an_edge_takes_an_annotation_and_no_assignment() {
    let doc = parse_source("[g]\na -> b : { weight: 2.5 }\n").unwrap();
    assert_eq!(
        doc.get("g"),
        Some(&Value::Vec(vec![pair(
            edge(symbol("a"), symbol("b")),
            Value::Vec(vec![pair(symbol("weight"), number("2.5"))]),
        )]))
    );
    assert_eq!(
        parse_source("[g]\na -> b = 1\n"),
        Err(Error::Parse(ParseError::UnexpectedTarget { context: Continuation::Assignment }))
    );
    assert_eq!(
        parse_source("[g]\na : { x: 1 }\n"),
        Err(Error::Parse(ParseError::UnexpectedTarget { context: Continuation::Annotation }))
    );
}

#[test]
fn a_message_keeps_its_name_and_arguments() {
    let doc = parse_source("[m]\nk = f(1, \"two\", g(), { a: b }, )\n").unwrap();
    assert_eq!(
        doc.get("m"),
        Some(&Value::Vec(vec![pair(
            symbol("k"),
            Value::Message(
                "f".to_string(),
                vec![
                    number("1"),
                    string("two"),
                    Value::Message("g".to_string(), vec![]),
                    Value::Vec(vec![pair(symbol("a"), symbol("b"))]),
                ],
            ),
        )]))
    );
}

#[test]
fn an_unexpected_character_is_a_lex_error() {
    assert_eq!(parse_source("[a]\nx = 1 + 2\n"), Err(Error::Lex(LexError::UnexpectedCharacter('+'))));
}

#[test]
fn a_blank_line_ends_a_block() {
    let doc = parse_source("\n\n[a]\n\n[b]\n  x\n; a comment ends the block too\n").unwrap();
    assert_eq!(doc.len(), 2);
    assert_eq!(doc.get("a"), Some(&Value::Vec(vec![])));
    assert_eq!(doc.get("b"), Some(&Value::Vec(vec![symbol("x")])));
}

#[test]
fn an_empty_text_is_an_empty_document() {
    assert_eq!(parse_source("").unwrap().len(), 0);
    assert_eq!(parse_source("  \n\n ; nothing\n").unwrap().len(), 0);
}

#[test]
fn a_statement_needs_its_newline() {
    assert_eq!(
        parse_source("[a]\nleaf"),
        Err(Error::Parse(ParseError::ExpectedToken { expected: Expected::Newline, found: None }))
    );
    assert_eq!(
        parse_source("[a]"),
        Err(Error::Parse(ParseError::ExpectedToken { expected: Expected::Newline, found: None }))
    );
}

#[test]
fn a_long_text_is_read_whole() {
    let mut source = String::new();
    for block in 0..200 {
        source.push_str(&format!("[block_{}]\n", "x".repeat(block % 7 + 1)));
        for line in 0..50 {
            source.push_str(&format!(
                "  item -> other : {{ weight: {}.5, label: \"line {}\", call: f(a, b, g()) }} ; note\n",
                line, line
            ));
            source.push_str("name = value\n");
        }
        source.push('\n');
    }
    let doc = parse_source(&source).unwrap();
    assert_eq!(doc.len(), 7);
    match doc.get("block_x") {
        Some(Value::Vec(items)) => assert_eq!(items.len(), 100),
        other => panic!("unexpected: {:?}", other),
    }
}

#[test]
fn deep_nesting_is_read() {
    let depth = 200;
    let mut source = String::from("[deep]\nk = ");
    for _ in 0..depth {
        source.push_str("{ a: f(");
    }
    source.push('1');
    for _ in 0..depth {
        source.push_str(") }");
    }
    source.push('\n');
    let doc = parse_source(&source).unwrap();
    let mut value = match doc.get("deep") {
        Some(Value::Vec(items)) => match &items[0] {
            Value::Pair(_, value) => &**value,
            other => panic!("unexpected: {:?}", other),
        },
        other => panic!("unexpected: {:?}", other),
    };
    let mut seen = 0;
    loop {
        match value {
            Value::Vec(items) => match &items[0] {
                Value::Pair(_, inner) => match &**inner {
                    Value::Message(_, args) => {
                        value = &args[0];
                        seen += 1;
                    }
                    other => panic!("unexpected: {:?}", other),
                },
                other => panic!("unexpected: {:?}", other),
            },
            Value::Number(n) => {
                assert_eq!(n.as_str(), "1");
                break;
            }
            other => panic!("unexpected: {:?}", other),
        }
    }
    assert_eq!(seen, depth);
}
