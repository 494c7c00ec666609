//! Tokens, the units that the scanner hands to the parser.
use vstd::prelude::*;
use crate::numeral::Numeral;

verus! {

/// The punctuation marks that are tokens by themselves.
#[derive(Clone, Copy, Debug, PartialEq, Eq, Structural)]
pub enum Punct {
    /// `[`
    LeftBracket,
    /// `]`
    RightBracket,
    /// `(`
    LeftParen,
    /// `)`
    RightParen,
    /// `{`
    LeftBrace,
    /// `}`
    RightBrace,
    /// `,`
    Comma,
    /// `.`
    Dot,
    /// `:`
    Colon,
    /// `-`, where no `>` follows it
    Minus,
    /// `>`
    Greater,
    /// `=`
    Equals,
}

/// The mark that the single character `c` stands for, if it is one. A `-`
/// is not decided by itself and is not listed here.
pub open spec fn punct_of(c: char) -> Option<Punct> {
    if c == ',' {
        Some(Punct::Comma)
    } else if c == '.' {
        Some(Punct::Dot)
    } else if c == '(' {
        Some(Punct::LeftParen)
    } else if c == ')' {
        Some(Punct::RightParen)
    } else if c == '[' {
        Some(Punct::LeftBracket)
    } else if c == ']' {
        Some(Punct::RightBracket)
    } else if c == '{' {
        Some(Punct::LeftBrace)
    } else if c == '}' {
        Some(Punct::RightBrace)
    } else if c == ':' {
        Some(Punct::Colon)
    } else if c == '=' {
        Some(Punct::Equals)
    } else if c == '>' {
        Some(Punct::Greater)
    } else {
        None
    }
}

/// Decides [`punct_of`].
pub fn punct(c: char) -> (p: Option<Punct>)
    ensures
        p == punct_of(c),
{
    if c == ',' {
        Some(Punct::Comma)
    } else if c == '.' {
        Some(Punct::Dot)
    } else if c == '(' {
        Some(Punct::LeftParen)
    } else if c == ')' {
        Some(Punct::RightParen)
    } else if c == '[' {
        Some(Punct::LeftBracket)
    } else if c == ']' {
        Some(Punct::RightBracket)
    } else if c == '{' {
        Some(Punct::LeftBrace)
    } else if c == '}' {
        Some(Punct::RightBrace)
    } else if c == ':' {
        Some(Punct::Colon)
    } else if c == '=' {
        Some(Punct::Equals)
    } else if c == '>' {
        Some(Punct::Greater)
    } else {
        None
    }
}

/// One lexical unit. Blanks, comments and line ends are tokens too: the
/// grammar decides where they matter.
#[derive(Debug, PartialEq, Eq)]
pub enum Token {
    /// A run of letters and underscores.
    Identifier(String),
    /// A decimal numeral.
    Number(Numeral),
    /// What stood between two double quotes, unchanged.
    String(String),
    /// A punctuation mark.
    Symbol(Punct),
    /// `->`
    Arrow,
    /// The end of a line.
    Newline,
    /// A run of spaces and tabs, or a comment.
    Whitespace,
}

/// A [`Token`] as a mathematical value: texts are sequences of characters.
pub enum TokenView {
    Identifier(Seq<char>),
    Number(Seq<char>),
    String(Seq<char>),
    Symbol(Punct),
    Arrow,
    Newline,
    Whitespace,
}

impl View for Token {
    type V = TokenView;

    open spec fn view(&self) -> TokenView {
        match self {
            Token::Identifier(name) => TokenView::Identifier(name@),
            Token::Number(n) => TokenView::Number(n@),
            Token::String(text) => TokenView::String(text@),
            Token::Symbol(p) => TokenView::Symbol(*p),
            Token::Arrow => TokenView::Arrow,
            Token::Newline => TokenView::Newline,
            Token::Whitespace => TokenView::Whitespace,
        }
    }
}

impl Clone for Token {
    fn clone(&self) -> (copy: Self)
        ensures
            copy@ == self@,
    {
        match self {
            Token::Identifier(name) => Token::Identifier(name.clone()),
            Token::Number(n) => Token::Number(n.clone()),
            Token::String(text) => Token::String(text.clone()),
            Token::Symbol(p) => Token::Symbol(*p),
            Token::Arrow => Token::Arrow,
            Token::Newline => Token::Newline,
            Token::Whitespace => Token::Whitespace,
        }
    }
}

/// The views of a sequence of tokens, one by one.
pub open spec fn views(tokens: Seq<Token>) -> Seq<TokenView> {
    tokens.map_values(|t: Token| t@)
}

} // verus!
