//! What can go wrong, stage by stage. The first error ends the whole
//! operation; there is no partial result and no recovery.
use vstd::prelude::*;
use crate::token::{Punct, Token, TokenView};

verus! {

/// Why the scanner gave up.
#[derive(Clone, Copy, Debug, PartialEq, Eq, Structural)]
pub enum LexError {
    /// A string literal was still open at the end of the input.
    UnterminatedString,
    /// A text that should be a decimal numeral is not one.
    InvalidNumber,
    /// A character with which no token begins.
    UnexpectedCharacter(char),
}

/// What the parser was looking for when it failed.
#[derive(Clone, Copy, Debug, PartialEq, Eq, Structural)]
pub enum Expected {
    /// This punctuation mark.
    Symbol(Punct),
    /// The end of a line.
    Newline,
    /// A name.
    Identifier,
    /// A key: an identifier, a string or a number.
    Key,
    /// A value: a struct, a string, a number or a message.
    Value,
    /// A definition: a struct or a message.
    Definition,
}

/// The continuation that met a target of the wrong kind.
#[derive(Clone, Copy, Debug, PartialEq, Eq, Structural)]
pub enum Continuation {
    /// `:` after a target that is not an edge.
    Annotation,
    /// `=` after a target that is not a leaf.
    Assignment,
}

/// Why the parser gave up.
#[derive(Debug, PartialEq, Eq)]
pub enum ParseError {
    /// The grammar asked for `expected` and the input held `found`
    /// (`None` at the end of the input).
    ExpectedToken { expected: Expected, found: Option<Token> },
    /// A `:` or `=` followed a target that cannot take it.
    UnexpectedTarget { context: Continuation },
}

/// A [`ParseError`] with its token seen as a [`TokenView`].
pub enum ParseErrorView {
    ExpectedToken { expected: Expected, found: Option<TokenView> },
    UnexpectedTarget { context: Continuation },
}

impl View for ParseError {
    type V = ParseErrorView;

    open spec fn view(&self) -> ParseErrorView {
        match self {
            ParseError::ExpectedToken { expected, found } => ParseErrorView::ExpectedToken {
                expected: *expected,
                found: match found {
                    Some(t) => Some(t@),
                    None => None,
                },
            },
            ParseError::UnexpectedTarget { context } => ParseErrorView::UnexpectedTarget {
                context: *context,
            },
        }
    }
}

impl Clone for ParseError {
    fn clone(&self) -> (copy: Self)
        ensures
            copy@ == self@,
    {
        match self {
            ParseError::ExpectedToken { expected, found } => ParseError::ExpectedToken {
                expected: *expected,
                found: match found {
                    Some(token) => Some(token.clone()),
                    None => None,
                },
            },
            ParseError::UnexpectedTarget { context } => ParseError::UnexpectedTarget {
                context: *context,
            },
        }
    }
}

/// Why a sequence of reduced values is not a document.
#[derive(Clone, Copy, Debug, PartialEq, Eq, Structural)]
pub enum ConversionError {
    /// A top-level value is not a pair of a name and a vector.
    InvalidTopLevel,
    /// The first half of a top-level pair is not a string.
    NonStringKey,
}

/// Why a text could not be read as a document: the error of the stage that
/// failed.
#[derive(Debug, PartialEq, Eq)]
pub enum Error {
    /// The scanner failed.
    Lex(LexError),
    /// The parser failed.
    Parse(ParseError),
    /// The blocks do not make a document.
    Conversion(ConversionError),
}

/// An [`Error`] with its token seen as a [`TokenView`].
pub enum ErrorView {
    Lex(LexError),
    Parse(ParseErrorView),
    Conversion(ConversionError),
}

impl View for Error {
    type V = ErrorView;

    open spec fn view(&self) -> ErrorView {
        match self {
            Error::Lex(e) => ErrorView::Lex(*e),
            Error::Parse(e) => ErrorView::Parse(e@),
            Error::Conversion(e) => ErrorView::Conversion(*e),
        }
    }
}

impl Clone for Error {
    fn clone(&self) -> (copy: Self)
        ensures
            copy@ == self@,
    {
        match self {
            Error::Lex(e) => Error::Lex(*e),
            Error::Parse(e) => Error::Parse(e.clone()),
            Error::Conversion(e) => Error::Conversion(*e),
        }
    }
}

} // verus!
