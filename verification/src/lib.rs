//! A front end for a small, line-oriented language that describes
//! configuration and graphs: named blocks hold leaves, directed edges,
//! assignments, structs and call-like messages.
//!
//! Text goes through two stages. The scanner turns characters into tokens;
//! the parser turns tokens into a syntax tree, which is then folded into a
//! [`value::Document`]. Every stage is specified by a pure function of the
//! input that is still to be read, and each executable function is proved to
//! compute exactly that function.
pub mod ast;
pub mod blanks;
pub mod chars;
pub mod error;
pub mod grammar;
pub mod laws;
pub mod numeral;
pub mod parse;
pub mod parser;
pub mod scanner;
pub mod token;
pub mod value;
pub mod whitespace;
