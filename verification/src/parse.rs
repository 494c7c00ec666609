//! The front end in one place: the scanner, the parser, and the function
//! that runs one after the other.
pub use crate::parser::Parser;
pub use crate::scanner::Scanner;
pub use crate::token::Token;

use vstd::prelude::*;
use crate::error::{Error, ErrorView};
use crate::parser::described;
use crate::scanner::{scan, tokens};
use crate::value::{Document, ValueView};

verus! {

/// The document that the text `source` describes, or the first error that
/// reading it meets: an error of the scanner where the text has no tokens,
/// else what [`described`] says of its tokens.
pub open spec fn document_of(source: Seq<char>) -> Result<Seq<(Seq<char>, ValueView)>, ErrorView> {
    match tokens(source) {
        Err(error) => Err(ErrorView::Lex(error)),
        Ok(ts) => described(ts),
    }
}

/// Reads `source` as a document. An error is one of the scanner or of the
/// parser.
pub fn parse_source(source: &str) -> (r: Result<Document, Error>)
    ensures
        match document_of(source@) {
            Ok(entries) => r matches Ok(d) && d@ == entries,
            Err(error) => r matches Err(e) && e@ == error && !(e is Conversion),
        },
{
    let tokens = match scan(source) {
        Ok(tokens) => tokens,
        Err(e) => {
            return Err(Error::Lex(e));
        },
    };
    let mut parser = Parser::new(tokens);
    parser.parse()
}

} // verus!
