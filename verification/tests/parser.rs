use gmml::ast::Ast;
use gmml::error::{Continuation, Error, Expected, ParseError};
use gmml::numeral::Numeral;
use gmml::parser::Parser;
use gmml::scanner::scan;
use gmml::token::{Punct, Token};

fn parser(source: &str) -> Parser {
    Parser::new(scan(source).unwrap())
}

fn leaf(name: &str) -> Ast {
    Ast::Leaf { name: name.to_string() }
}

fn number(text: &str) -> Ast {
    Ast::Number(Numeral::parse(text).unwrap())
}

fn string(text: &str) -> Ast {
    Ast::String(text.to_string())
}

fn edge(from: Ast, to: Ast) -> Ast {
    Ast::Edge { from: Box::new(from), to: Box::new(to) }
}

fn expected(expected: Expected, found: Option<Token>) -> ParseError {
    ParseError::ExpectedToken { expected, found }
}

#[test]
fn a_key_is_an_identifier_a_string_or_a_number() {
    assert_eq!(parser("a").parse_key(), Ok(leaf("a")));
    assert_eq!(parser("\"a b\"").parse_key(), Ok(string("a b")));
    assert_eq!(parser("4.5").parse_key(), Ok(number("4.5")));
    let mut p = parser("{");
    assert_eq!(
        p.parse_key(),
        Err(expected(Expected::Key, Some(Token::Symbol(Punct::LeftBrace))))
    );
    assert_eq!(p.position(), 0);
    assert_eq!(parser("").parse_key(), Err(expected(Expected::Key, None)));
}

#[test]
fn a_target_without_arrow_ends_after_its_key() {
    let mut p = parser("a   = 1\n");
    assert_eq!(p.parse_target(), Ok(leaf("a")));
    assert_eq!(p.position(), 1);
    assert_eq!(p.peek(), Some(&Token::Whitespace));

    let mut p = parser("a");
    assert_eq!(p.parse_target(), Ok(leaf("a")));
    assert_eq!(p.position(), 1);
    assert!(p.is_done());
}

#[test]
fn a_target_with_arrow_is_an_edge() {
    let mut p = parser("a -> b\n");
    assert_eq!(p.parse_target(), Ok(edge(leaf("a"), leaf("b"))));
    assert_eq!(p.position(), 5);
    assert_eq!(p.peek(), Some(&Token::Newline));

    let mut p = parser("\"from\"->7");
    assert_eq!(p.parse_target(), Ok(edge(string("from"), number("7"))));
    assert!(p.is_done());
}

#[test]
fn an_arrow_needs_a_second_key() {
    let mut p = parser("a -> \n");
    assert_eq!(p.parse_target(), Err(expected(Expected::Key, Some(Token::Newline))));
    assert_eq!(p.position(), 4);
}

#[test]
fn the_skips_differ_at_a_newline() {
    let mut p = parser("  \n  \n x");
    p.skip_whitespace();
    assert_eq!(p.position(), 1);
    p.skip_whitespace();
    assert_eq!(p.position(), 1);
    p.skip_blank();
    assert_eq!(p.position(), 5);
    assert_eq!(p.peek(), Some(&Token::Identifier("x".to_string())));
}

#[test]
fn a_value_is_a_struct_a_literal_or_a_message() {
    assert_eq!(parser("\"s\"").parse_value(), Ok(string("s")));
    assert_eq!(parser("12").parse_value(), Ok(number("12")));
    assert_eq!(parser("name").parse_value(), Ok(leaf("name")));
    assert_eq!(
        parser("f(a, 1)").parse_value(),
        Ok(Ast::Message { name: "f".to_string(), args: vec![leaf("a"), number("1")] })
    );
    assert_eq!(
        parser("{ a: 1, \"b\": c }").parse_value(),
        Ok(Ast::Struct(vec![(leaf("a"), number("1")), (string("b"), leaf("c"))]))
    );
    assert_eq!(
        parser("]").parse_value(),
        Err(expected(Expected::Value, Some(Token::Symbol(Punct::RightBracket))))
    );
    assert_eq!(parser("").parse_value(), Err(expected(Expected::Value, None)));
}

#[test]
fn a_struct_may_span_lines_and_end_with_a_comma() {
    assert_eq!(parser("{}").parse_struct(), Ok(Ast::Struct(vec![])));
    assert_eq!(parser("{ \n }").parse_struct(), Ok(Ast::Struct(vec![])));
    assert_eq!(
        parser("{\n  a : 1 ,\n  b : { c : d },\n}").parse_struct(),
        Ok(Ast::Struct(vec![
            (leaf("a"), number("1")),
            (leaf("b"), Ast::Struct(vec![(leaf("c"), leaf("d"))])),
        ]))
    );
}

#[test]
fn a_struct_must_be_closed() {
    assert_eq!(
        parser("{ a: 1 ").parse_struct(),
        Err(expected(Expected::Symbol(Punct::RightBrace), None))
    );
    assert_eq!(
        parser("{ a: 1 b: 2 }").parse_struct(),
        Err(expected(Expected::Symbol(Punct::RightBrace), Some(Token::Identifier("b".to_string()))))
    );
    assert_eq!(
        parser("{ a 1 }").parse_struct(),
        Err(expected(
            Expected::Symbol(Punct::Colon),
            Some(Token::Number(Numeral::parse("1").unwrap()))
        ))
    );
    assert_eq!(
        parser("a: 1 }").parse_struct(),
        Err(expected(Expected::Symbol(Punct::LeftBrace), Some(Token::Identifier("a".to_string()))))
    );
    assert_eq!(
        parser("{ , }").parse_struct(),
        Err(expected(Expected::Key, Some(Token::Symbol(Punct::Comma))))
    );
}

#[test]
fn a_message_needs_its_parenthesis_directly() {
    assert_eq!(
        parser("f()").parse_message(),
        Ok(Ast::Message { name: "f".to_string(), args: vec![] })
    );
    assert_eq!(
        parser("f(\n 1,\n g(x),\n)").parse_message(),
        Ok(Ast::Message {
            name: "f".to_string(),
            args: vec![number("1"), Ast::Message { name: "g".to_string(), args: vec![leaf("x")] }],
        })
    );
    let mut p = parser("f (1)");
    assert_eq!(p.parse_message(), Ok(leaf("f")));
    assert_eq!(p.position(), 1);
    assert_eq!(
        parser("f(1").parse_message(),
        Err(expected(Expected::Symbol(Punct::RightParen), None))
    );
    assert_eq!(
        parser("f(1 2)").parse_message(),
        Err(expected(
            Expected::Symbol(Punct::RightParen),
            Some(Token::Number(Numeral::parse("2").unwrap()))
        ))
    );
    assert_eq!(
        parser("1").parse_message(),
        Err(expected(Expected::Identifier, Some(Token::Number(Numeral::parse("1").unwrap()))))
    );
}

#[test]
fn a_statement_ends_with_its_line() {
    let mut p = parser("a\nb\n");
    assert_eq!(p.parse_statement(), Ok(leaf("a")));
    assert_eq!(p.position(), 2);
    assert_eq!(
        parser("a = f(1) \n").parse_statement(),
        Ok(Ast::LeafDef {
            target: Box::new(leaf("a")),
            stmt: Box::new(Ast::Message { name: "f".to_string(), args: vec![number("1")] }),
        })
    );
    assert_eq!(
        parser("a -> b : { w: 1 }\n").parse_statement(),
        Ok(Ast::EdgeDef {
            target: Box::new(edge(leaf("a"), leaf("b"))),
            stmt: Box::new(Ast::Struct(vec![(leaf("w"), number("1"))])),
        })
    );
    assert_eq!(
        parser("a b\n").parse_statement(),
        Err(expected(Expected::Newline, Some(Token::Identifier("b".to_string()))))
    );
    assert_eq!(
        parser("a = 1 2\n").parse_statement(),
        Err(expected(Expected::Newline, Some(Token::Number(Numeral::parse("2").unwrap()))))
    );
    assert_eq!(
        parser("a = \n").parse_statement(),
        Err(expected(Expected::Value, Some(Token::Newline)))
    );
}

#[test]
fn an_annotation_is_a_struct_or_a_message() {
    assert_eq!(
        parser("a -> b : f(1)\n").parse_statement(),
        Ok(Ast::EdgeDef {
            target: Box::new(edge(leaf("a"), leaf("b"))),
            stmt: Box::new(Ast::Message { name: "f".to_string(), args: vec![number("1")] }),
        })
    );
    assert_eq!(
        parser("a -> b : heavy\n").parse_statement(),
        Ok(Ast::EdgeDef { target: Box::new(edge(leaf("a"), leaf("b"))), stmt: Box::new(leaf("heavy")) })
    );
    assert_eq!(
        parser("a -> b : \"heavy\"\n").parse_statement(),
        Err(expected(Expected::Definition, Some(Token::String("heavy".to_string()))))
    );
    assert_eq!(
        parser("a -> b : 1\n").parse_statement(),
        Err(expected(Expected::Definition, Some(Token::Number(Numeral::parse("1").unwrap()))))
    );
    assert_eq!(parser("{ a: 1 }").parse_definition(), Ok(Ast::Struct(vec![(leaf("a"), number("1"))])));
    assert_eq!(parser("").parse_definition(), Err(expected(Expected::Definition, None)));
}

#[test]
fn an_assignment_takes_any_value() {
    assert_eq!(
        parser("k = \"v\"\n").parse_statement(),
        Ok(Ast::LeafDef { target: Box::new(leaf("k")), stmt: Box::new(string("v")) })
    );
    assert_eq!(
        parser("k = 2.5\n").parse_statement(),
        Ok(Ast::LeafDef { target: Box::new(leaf("k")), stmt: Box::new(number("2.5")) })
    );
    assert_eq!(
        parser("k = { a: 1 }\n").parse_statement(),
        Ok(Ast::LeafDef {
            target: Box::new(leaf("k")),
            stmt: Box::new(Ast::Struct(vec![(leaf("a"), number("1"))])),
        })
    );
}

#[test]
fn only_a_leaf_is_assigned_to() {
    assert_eq!(
        parser("\"k\" = 1\n").parse_statement(),
        Err(ParseError::UnexpectedTarget { context: Continuation::Assignment })
    );
    assert_eq!(
        parser("7 = 1\n").parse_statement(),
        Err(ParseError::UnexpectedTarget { context: Continuation::Assignment })
    );
    assert_eq!(parser("\"k\"\n").parse_statement(), Ok(string("k")));
    assert_eq!(parser("7\n").parse_statement(), Ok(number("7")));
}

#[test]
fn a_continuation_must_fit_its_target() {
    let mut p = parser("a : { x: 1 }\n");
    assert_eq!(
        p.parse_statement(),
        Err(ParseError::UnexpectedTarget { context: Continuation::Annotation })
    );
    assert_eq!(p.position(), 2);
    let mut p = parser("a -> b = 1\n");
    assert_eq!(
        p.parse_statement(),
        Err(ParseError::UnexpectedTarget { context: Continuation::Assignment })
    );
    assert_eq!(p.position(), 6);
}

#[test]
fn content_ends_at_a_blank_line_a_bracket_or_the_end() {
    let mut p = parser("a\n  b\n\nc\n");
    assert_eq!(p.parse_content(), Ok(vec![leaf("a"), leaf("b")]));
    assert_eq!(p.peek(), Some(&Token::Newline));
    let mut p = parser("a\n[b]\n");
    assert_eq!(p.parse_content(), Ok(vec![leaf("a")]));
    assert_eq!(p.peek(), Some(&Token::Symbol(Punct::LeftBracket)));
    let mut p = parser("\na\n");
    assert_eq!(p.parse_content(), Ok(vec![]));
    assert_eq!(p.position(), 0);
    let mut p = parser("a\n");
    assert_eq!(p.parse_content(), Ok(vec![leaf("a")]));
    assert!(p.is_done());
}

#[test]
fn a_block_has_a_header_and_content() {
    assert_eq!(
        parser("[name] \na -> b\nc\n").parse_block(),
        Ok(Ast::Block {
            name: "name".to_string(),
            content: vec![edge(leaf("a"), leaf("b")), leaf("c")],
        })
    );
    assert_eq!(
        parser("[ name]\n").parse_block(),
        Err(expected(Expected::Identifier, Some(Token::Whitespace)))
    );
    assert_eq!(
        parser("[name\n").parse_block(),
        Err(expected(Expected::Symbol(Punct::RightBracket), Some(Token::Newline)))
    );
    assert_eq!(
        parser("[name] x\n").parse_block(),
        Err(expected(Expected::Newline, Some(Token::Identifier("x".to_string()))))
    );
    assert_eq!(
        parser("name]\n").parse_block(),
        Err(expected(Expected::Symbol(Punct::LeftBracket), Some(Token::Identifier("name".to_string()))))
    );
}

#[test]
fn blocks_are_read_to_the_end_of_the_input() {
    let mut p = parser("\n[a]\nx\n\n\n[b]\n[c]\ny\n\n");
    assert_eq!(
        p.parse_blocks(),
        Ok(vec![
            Ast::Block { name: "a".to_string(), content: vec![leaf("x")] },
            Ast::Block { name: "b".to_string(), content: vec![] },
            Ast::Block { name: "c".to_string(), content: vec![leaf("y")] },
        ])
    );
    assert!(p.is_done());
}

#[test]
fn what_follows_a_blank_line_must_be_a_block() {
    let mut p = parser("[a]\nx\n\ny\n");
    assert_eq!(
        p.parse(),
        Err(Error::Parse(expected(
            Expected::Symbol(Punct::LeftBracket),
            Some(Token::Identifier("y".to_string()))
        )))
    );
    assert_eq!(p.position(), 7);
}

#[test]
fn whitespace_where_the_parser_skips_changes_nothing() {
    let plain = parser("[g]\na->b:{w:1,v:f(x,y)}\nk=\"v\"\n").parse_blocks();
    let spaced = parser(
        "  [g]  \n  a  ->  b  :  {  w  :  1  ,  v  :  f(  x  ,  y  )  }  \n  k  =  \"v\"  \n",
    )
    .parse_blocks();
    assert!(plain.is_ok());
    assert_eq!(plain, spaced);
}
