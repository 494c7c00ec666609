use gmml::ast::Ast;
use gmml::error::ConversionError;
use gmml::numeral::Numeral;
use gmml::value::{reduce, reduce_all, Document, Value};

fn leaf(name: &str) -> Ast {
    Ast::Leaf { name: name.to_string() }
}

fn symbol(name: &str) -> Value {
    Value::Symbol(name.to_string())
}

fn string(text: &str) -> Value {
    Value::String(text.to_string())
}

fn pair(key: Value, value: Value) -> Value {
    Value::Pair(Box::new(key), Box::new(value))
}

#[test]
fn literals_reduce_to_themselves() {
    assert_eq!(reduce(Ast::String("s".to_string())), string("s"));
    assert_eq!(
        reduce(Ast::Number(Numeral::parse("1.5").unwrap())),
        Value::Number(Numeral::parse("1.5").unwrap())
    );
    assert_eq!(reduce(leaf("a")), symbol("a"));
}

#[test]
fn composite_nodes_reduce_by_their_parts() {
    assert_eq!(
        reduce(Ast::Edge { from: Box::new(leaf("a")), to: Box::new(leaf("b")) }),
        Value::Edge(Box::new(symbol("a")), Box::new(symbol("b")))
    );
    assert_eq!(
        reduce(Ast::LeafDef { target: Box::new(leaf("k")), stmt: Box::new(leaf("v")) }),
        pair(symbol("k"), symbol("v"))
    );
    assert_eq!(
        reduce(Ast::EdgeDef {
            target: Box::new(Ast::Edge { from: Box::new(leaf("a")), to: Box::new(leaf("b")) }),
            stmt: Box::new(Ast::Struct(vec![(leaf("w"), leaf("x"))])),
        }),
        pair(
            Value::Edge(Box::new(symbol("a")), Box::new(symbol("b"))),
            Value::Vec(vec![pair(symbol("w"), symbol("x"))]),
        )
    );
    assert_eq!(
        reduce(Ast::Message { name: "f".to_string(), args: vec![leaf("x"), leaf("y")] }),
        Value::Message("f".to_string(), vec![symbol("x"), symbol("y")])
    );
    assert_eq!(
        reduce(Ast::Block { name: "b".to_string(), content: vec![leaf("x")] }),
        pair(string("b"), Value::Vec(vec![symbol("x")]))
    );
    assert_eq!(reduce_all(vec![leaf("x"), leaf("y")]), vec![symbol("x"), symbol("y")]);
}

#[test]
fn a_document_keeps_the_first_value_of_a_name() {
    let mut doc = Document::new();
    assert_eq!(doc.len(), 0);
    assert!(doc.insert("a".to_string(), symbol("first")));
    assert!(doc.insert("b".to_string(), symbol("other")));
    assert!(!doc.insert("a".to_string(), symbol("second")));
    assert_eq!(doc.len(), 2);
    assert_eq!(doc.get("a"), Some(&symbol("first")));
    assert_eq!(doc.get("b"), Some(&symbol("other")));
    assert_eq!(doc.get("c"), None);
    assert!(doc.contains("b"));
    assert!(!doc.contains("c"));
    assert_eq!(doc.entry(0), Some((&"a".to_string(), &symbol("first"))));
    assert_eq!(doc.entry(1), Some((&"b".to_string(), &symbol("other"))));
    assert_eq!(doc.entry(2), None);
}

#[test]
fn blocks_assemble_in_order() {
    let doc = Document::assemble(vec![
        pair(string("a"), Value::Vec(vec![symbol("x")])),
        pair(string("b"), Value::Vec(vec![])),
        pair(string("a"), Value::Vec(vec![symbol("y")])),
    ])
    .unwrap();
    assert_eq!(doc.len(), 2);
    assert_eq!(doc.get("a"), Some(&Value::Vec(vec![symbol("x")])));
    assert_eq!(doc.get("b"), Some(&Value::Vec(vec![])));
    assert_eq!(Document::assemble(vec![]).unwrap().len(), 0);
}

#[test]
fn a_top_level_value_must_be_a_named_vector() {
    assert_eq!(Document::assemble(vec![symbol("x")]), Err(ConversionError::InvalidTopLevel));
    assert_eq!(
        Document::assemble(vec![pair(string("a"), symbol("x"))]),
        Err(ConversionError::InvalidTopLevel)
    );
    assert_eq!(
        Document::assemble(vec![pair(symbol("a"), Value::Vec(vec![]))]),
        Err(ConversionError::NonStringKey)
    );
    assert_eq!(
        Document::assemble(vec![pair(symbol("a"), symbol("x"))]),
        Err(ConversionError::NonStringKey)
    );
}

#[test]
fn the_first_bad_value_decides_the_error() {
    assert_eq!(
        Document::assemble(vec![
            pair(string("a"), Value::Vec(vec![])),
            pair(symbol("b"), Value::Vec(vec![])),
            symbol("x"),
        ]),
        Err(ConversionError::NonStringKey)
    );
    assert_eq!(
        Document::assemble(vec![
            symbol("x"),
            pair(symbol("b"), Value::Vec(vec![])),
        ]),
        Err(ConversionError::InvalidTopLevel)
    );
}

#[test]
fn a_document_is_a_value_too() {
    let mut doc = Document::new();
    doc.insert("a".to_string(), symbol("x"));
    let mut same = Document::new();
    same.insert("a".to_string(), symbol("x"));
    assert_eq!(Value::Mapping(doc), Value::Mapping(same));
}

#[test]
fn a_literal_comes_out_as_it_went_in() {
    for text in ["0", "12.5", "7.", "123456789.000001"] {
        let tokens = gmml::scanner::scan(text).unwrap();
        assert_eq!(tokens.len(), 1);
        let mut parser = gmml::parser::Parser::new(tokens);
        let value = reduce(parser.parse_value().unwrap());
        assert!(parser.is_done());
        match value {
            Value::Number(n) => {
                assert_eq!(n.as_str(), text);
                let read: f64 = n.as_str().parse().unwrap();
                let expected: f64 = text.parse().unwrap();
                assert_eq!(read, expected);
            }
            other => panic!("not a number: {:?}", other),
        }
    }
    for text in ["", "plain", "with ; and \\ and\nnewline", "\u{e9}"] {
        let source = format!("\"{}\"", text);
        let tokens = gmml::scanner::scan(&source).unwrap();
        assert_eq!(tokens.len(), 1);
        let mut parser = gmml::parser::Parser::new(tokens);
        assert_eq!(reduce(parser.parse_value().unwrap()), Value::String(text.to_string()));
        assert!(parser.is_done());
    }
}

#[test]
fn a_copy_equals_what_it_was_made_of() {
    let ast = Ast::Block {
        name: "b".to_string(),
        content: vec![
            Ast::EdgeDef {
                target: Box::new(Ast::Edge { from: Box::new(leaf("a")), to: Box::new(leaf("b")) }),
                stmt: Box::new(Ast::Struct(vec![(
                    leaf("w"),
                    Ast::Number(Numeral::parse("1.5").unwrap()),
                )])),
            },
            Ast::Message { name: "f".to_string(), args: vec![Ast::String("s".to_string())] },
        ],
    };
    assert_eq!(ast.clone(), ast);
    let value = reduce(ast.clone());
    assert_eq!(value.clone(), value);
    let doc = Document::assemble(vec![value.clone()]).unwrap();
    assert_eq!(doc.clone(), doc);
    assert_eq!(Value::Mapping(doc.clone()).clone(), Value::Mapping(doc));
}
