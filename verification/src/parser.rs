//! The parser: recursive descent over a token sequence, with one cursor.
//!
//! Each method reads one production of [`crate::grammar`] at the cursor and
//! is proved to do what the production says: it returns the node of the
//! production, or its error, and leaves the cursor where the production
//! stops. The tokens themselves never change. The first error ends the
//! parse; the cursor then rests on the token that caused it.
use vstd::prelude::*;
use crate::ast::{ast_views, entry_views, Ast, AstView};
use crate::chars::lemma_run_len_unique;
use crate::error::{Continuation, Error, ErrorView, Expected, ParseError, ParseErrorView};
use crate::grammar::{
    arguments, at_punct, block, content, definition, document, entries, gaps, head, key,
    lemma_block_consumes, lemma_consumes, lemma_document_reads_all, lemma_skips,
    lemma_statement_consumes, line_end, message,
    pair, skip_blank, skip_whitespace, spaces, starts_with, statement, structure, target, value,
    Parsed,
};
use crate::laws::law_parsed_blocks_assemble;
use crate::token::{views, Punct, Token, TokenView};
use crate::value::{assembled, reduce_all, reduced_all, Document, ValueView};

verus! {

/// What a method returns when the production it reads ends as `p`: the
/// node of `p`, or its error.
pub open spec fn yields(p: Parsed<AstView>, r: Result<Ast, ParseError>) -> bool {
    match p {
        Parsed::Done { node, .. } => r matches Ok(a) && a@ == node,
        Parsed::Failed { error, .. } => r matches Err(e) && e@ == error,
    }
}

/// [`yields`], for a production that reads a sequence of nodes.
pub open spec fn yields_all(p: Parsed<Seq<AstView>>, r: Result<Vec<Ast>, ParseError>) -> bool {
    match p {
        Parsed::Done { node, .. } => r matches Ok(v) && ast_views(v@) == node,
        Parsed::Failed { error, .. } => r matches Err(e) && e@ == error,
    }
}

/// [`yields`], for a production that reads one `key: value` pair.
spec fn yields_pair(p: Parsed<(AstView, AstView)>, r: Result<(Ast, Ast), ParseError>) -> bool {
    match p {
        Parsed::Done { node, .. } => r matches Ok(e) && (e.0@, e.1@) == node,
        Parsed::Failed { error, .. } => r matches Err(e) && e@ == error,
    }
}

/// [`yields`], for a production that reads a sequence of pairs.
spec fn yields_entries(
    p: Parsed<Seq<(AstView, AstView)>>,
    r: Result<Vec<(Ast, Ast)>, ParseError>,
) -> bool {
    match p {
        Parsed::Done { node, .. } => r matches Ok(v) && entry_views(v@) == node,
        Parsed::Failed { error, .. } => r matches Err(e) && e@ == error,
    }
}

/// `p`, with `done` put in front of what it read.
spec fn prepend<T>(done: Seq<T>, p: Parsed<Seq<T>>) -> Parsed<Seq<T>> {
    match p {
        Parsed::Done { node, rest } => Parsed::Done { node: done + node, rest },
        Parsed::Failed { error, rest } => Parsed::Failed { error, rest },
    }
}

/// The document that the tokens `ts` describe: their blocks are read, each
/// is reduced to a value, and the values are entered under the blocks' names.
pub open spec fn described(ts: Seq<TokenView>) -> Result<Seq<(Seq<char>, ValueView)>, ErrorView> {
    match document(ts) {
        Parsed::Failed { error, .. } => Err(ErrorView::Parse(error)),
        Parsed::Done { node, .. } => match assembled(reduced_all(node)) {
            Ok(entries) => Ok(entries),
            Err(error) => Err(ErrorView::Conversion(error)),
        },
    }
}

/// A parser over a token sequence.
pub struct Parser {
    tokens: Vec<Token>,
    pos: usize,
}

impl Parser {
    #[verifier::type_invariant]
    spec fn well_formed(&self) -> bool {
        self.pos <= self.tokens.len()
    }

    /// All the tokens that the parser was made with.
    pub closed spec fn input(&self) -> Seq<TokenView> {
        views(self.tokens@)
    }

    /// The tokens from the cursor on.
    pub closed spec fn remaining(&self) -> Seq<TokenView> {
        views(self.tokens@).skip(self.pos as int)
    }

    /// A parser with its cursor at the first of `tokens`.
    pub fn new(tokens: Vec<Token>) -> (parser: Parser)
        ensures
            parser.input() == views(tokens@),
            parser.remaining() == views(tokens@),
    {
        assert(views(tokens@).skip(0) =~= views(tokens@));
        Parser { tokens, pos: 0 }
    }

    /// The index of the token at the cursor: the number of tokens read.
    pub fn position(&self) -> (n: usize)
        ensures
            n == self.input().len() - self.remaining().len(),
            self.remaining() == self.input().skip(n as int),
    {
        proof {
            use_type_invariant(self);
        }
        self.pos
    }

    /// Whether the cursor is at the end of the input.
    pub fn is_done(&self) -> (done: bool)
        ensures
            done == (self.remaining().len() == 0),
    {
        proof {
            use_type_invariant(self);
        }
        self.pos == self.tokens.len()
    }

    /// The token at the cursor, if there is one.
    pub fn peek(&self) -> (t: Option<&Token>)
        ensures
            match t {
                Some(token) => head(self.remaining()) == Some(token@),
                None => head(self.remaining()) is None,
            },
    {
        proof {
            use_type_invariant(self);
        }
        if self.pos < self.tokens.len() {
            Some(&self.tokens[self.pos])
        } else {
            None
        }
    }

    fn at(&self, p: Punct) -> (b: bool)
        ensures
            b == at_punct(self.remaining(), p),
    {
        match self.peek() {
            Some(Token::Symbol(q)) => *q == p,
            _ => false,
        }
    }

    fn at_newline(&self) -> (b: bool)
        ensures
            b == starts_with(self.remaining(), TokenView::Newline),
    {
        match self.peek() {
            Some(Token::Newline) => true,
            _ => false,
        }
    }

    fn at_arrow(&self) -> (b: bool)
        ensures
            b == starts_with(self.remaining(), TokenView::Arrow),
    {
        match self.peek() {
            Some(Token::Arrow) => true,
            _ => false,
        }
    }

    fn bump(&mut self)
        requires
            old(self).remaining().len() > 0,
        ensures
            final(self).input() == old(self).input(),
            final(self).remaining() == old(self).remaining().skip(1),
    {
        proof {
            use_type_invariant(&*self);
            assert(self.remaining().skip(1) =~= views(self.tokens@).skip(self.pos + 1));
        }
        self.pos = self.pos + 1;
    }

    fn mismatch(&self, expected: Expected) -> (e: ParseError)
        ensures
            e@ == (ParseErrorView::ExpectedToken { expected, found: head(self.remaining()) }),
    {
        let found = match self.peek() {
            Some(token) => Some(token.clone()),
            None => None,
        };
        ParseError::ExpectedToken { expected, found }
    }

    /// Moves the cursor past the `Whitespace` tokens at it. A `Newline`
    /// stops it.
    pub fn skip_whitespace(&mut self)
        ensures
            final(self).input() == old(self).input(),
            final(self).remaining() == skip_whitespace(old(self).remaining()),
    {
        proof {
            use_type_invariant(&*self);
        }
        let from = self.pos;
        let mut to: usize = from;
        while to < self.tokens.len() && matches!(self.tokens[to], Token::Whitespace)
            invariant
                from <= to <= self.tokens.len(),
                forall|i: int| from <= i < to ==> #[trigger] self.tokens@[i]@ is Whitespace,
            decreases self.tokens.len() - to,
        {
            to += 1;
        }
        proof {
            let rest = self.remaining();
            assert forall|i: int| 0 <= i < to - from implies spaces()(#[trigger] rest[i]) by {
                assert(self.tokens@[from + i]@ is Whitespace);
            }
            lemma_run_len_unique(rest, spaces(), (to - from) as nat);
            assert(rest.skip(to - from) =~= views(self.tokens@).skip(to as int));
        }
        self.pos = to;
    }

    /// Moves the cursor past the `Whitespace` and `Newline` tokens at it.
    pub fn skip_blank(&mut self)
        ensures
            final(self).input() == old(self).input(),
            final(self).remaining() == skip_blank(old(self).remaining()),
    {
        proof {
            use_type_invariant(&*self);
        }
        let from = self.pos;
        let mut to: usize = from;
        while to < self.tokens.len() && matches!(
            self.tokens[to],
            Token::Whitespace | Token::Newline
        )
            invariant
                from <= to <= self.tokens.len(),
                forall|i: int|
                    from <= i < to ==> gaps()(#[trigger] self.tokens@[i]@),
            decreases self.tokens.len() - to,
        {
            to += 1;
        }
        proof {
            let rest = self.remaining();
            assert forall|i: int| 0 <= i < to - from implies gaps()(#[trigger] rest[i]) by {
                assert(gaps()(self.tokens@[from + i]@));
            }
            lemma_run_len_unique(rest, gaps(), (to - from) as nat);
            assert(rest.skip(to - from) =~= views(self.tokens@).skip(to as int));
        }
        self.pos = to;
    }

    /// Reads a key: an identifier, a string or a number.
    pub fn parse_key(&mut self) -> (r: Result<Ast, ParseError>)
        ensures
            final(self).input() == old(self).input(),
            final(self).remaining() == key(old(self).remaining()).rest(),
            yields(key(old(self).remaining()), r),
    {
        let node = match self.peek() {
            Some(Token::Identifier(name)) => Ast::Leaf { name: name.clone() },
            Some(Token::String(text)) => Ast::String(text.clone()),
            Some(Token::Number(n)) => Ast::Number(n.clone()),
            _ => {
                return Err(self.mismatch(Expected::Key));
            },
        };
        self.bump();
        Ok(node)
    }

    /// Reads a target: a key, or an edge from one key to another. Where no
    /// arrow follows the first key, the cursor goes back to where the key
    /// ended.
    pub fn parse_target(&mut self) -> (r: Result<Ast, ParseError>)
        ensures
            final(self).input() == old(self).input(),
            final(self).remaining() == target(old(self).remaining()).rest(),
            yields(target(old(self).remaining()), r),
    {
        let from = match self.parse_key() {
            Ok(node) => node,
            Err(e) => {
                return Err(e);
            },
        };
        let mark = self.position();
        self.skip_whitespace();
        if self.at_arrow() {
            self.bump();
            self.skip_whitespace();
            match self.parse_key() {
                Ok(to) => Ok(Ast::Edge { from: Box::new(from), to: Box::new(to) }),
                Err(e) => Err(e),
            }
        } else {
            proof {
                use_type_invariant(&*self);
            }
            self.pos = mark;
            Ok(from)
        }
    }

    /// Reads a value: a struct, a string, a number or a message.
    pub fn parse_value(&mut self) -> (r: Result<Ast, ParseError>)
        ensures
            final(self).input() == old(self).input(),
            final(self).remaining() == value(old(self).remaining()).rest(),
            yields(value(old(self).remaining()), r),
        decreases old(self).remaining().len(), 3nat,
    {
        let node = match self.peek() {
            Some(Token::Symbol(Punct::LeftBrace)) => {
                return self.parse_struct();
            },
            Some(Token::Identifier(_)) => {
                return self.parse_message();
            },
            Some(Token::String(text)) => Ast::String(text.clone()),
            Some(Token::Number(n)) => Ast::Number(n.clone()),
            _ => {
                return Err(self.mismatch(Expected::Value));
            },
        };
        self.bump();
        Ok(node)
    }

    /// Reads a struct: `{`, pairs with commas between them, `}`.
    pub fn parse_struct(&mut self) -> (r: Result<Ast, ParseError>)
        ensures
            final(self).input() == old(self).input(),
            final(self).remaining() == structure(old(self).remaining()).rest(),
            yields(structure(old(self).remaining()), r),
        decreases old(self).remaining().len(), 2nat,
    {
        if !self.at(Punct::LeftBrace) {
            return Err(self.mismatch(Expected::Symbol(Punct::LeftBrace)));
        }
        self.bump();
        proof {
            lemma_skips(self.remaining());
        }
        self.skip_blank();
        match self.parse_entries() {
            Ok(pairs) => Ok(Ast::Struct(pairs)),
            Err(e) => Err(e),
        }
    }

    fn parse_entries(&mut self) -> (r: Result<Vec<(Ast, Ast)>, ParseError>)
        ensures
            final(self).input() == old(self).input(),
            final(self).remaining() == entries(old(self).remaining()).rest(),
            yields_entries(entries(old(self).remaining()), r),
        decreases old(self).remaining().len(), 1nat,
    {
        let mut out: Vec<(Ast, Ast)> = Vec::new();
        let ghost start = self.remaining();
        assert(entry_views(out@) + entries(start)->Done_node =~= entries(start)->Done_node);
        loop
            invariant
                start == old(self).remaining(),
                self.input() == old(self).input(),
                self.remaining().len() <= start.len(),
                entries(start) == prepend(entry_views(out@), entries(self.remaining())),
            decreases self.remaining().len(),
        {
            let ghost here = self.remaining();
            let ghost done = entry_views(out@);
            proof {
                lemma_consumes(here);
            }
            if self.at(Punct::RightBrace) {
                self.bump();
                assert(done + Seq::<(AstView, AstView)>::empty() =~= done);
                return Ok(out);
            }
            let first = match self.parse_pair() {
                Ok(e) => e,
                Err(e) => {
                    return Err(e);
                },
            };
            let ghost first_view = (first.0@, first.1@);
            out.push(first);
            assert(entry_views(out@) =~= done.push(first_view));
            proof {
                lemma_skips(self.remaining());
            }
            self.skip_blank();
            if self.at(Punct::Comma) {
                self.bump();
                proof {
                    lemma_skips(self.remaining());
                }
                self.skip_blank();
                proof {
                    if let Parsed::Done { node: more, .. } = entries(self.remaining()) {
                        assert(done + (seq![first_view] + more) =~= entry_views(out@) + more);
                    }
                }
            } else if self.at(Punct::RightBrace) {
                self.bump();
                assert(done + seq![first_view] =~= entry_views(out@));
                return Ok(out);
            } else {
                return Err(self.mismatch(Expected::Symbol(Punct::RightBrace)));
            }
        }
    }

    fn parse_pair(&mut self) -> (r: Result<(Ast, Ast), ParseError>)
        ensures
            final(self).input() == old(self).input(),
            final(self).remaining() == pair(old(self).remaining()).rest(),
            yields_pair(pair(old(self).remaining()), r),
        decreases old(self).remaining().len(), 0nat,
    {
        let k = match self.parse_key() {
            Ok(node) => node,
            Err(e) => {
                return Err(e);
            },
        };
        proof {
            lemma_skips(self.remaining());
        }
        self.skip_blank();
        if !self.at(Punct::Colon) {
            return Err(self.mismatch(Expected::Symbol(Punct::Colon)));
        }
        self.bump();
        proof {
            lemma_skips(self.remaining());
        }
        self.skip_blank();
        match self.parse_value() {
            Ok(v) => Ok((k, v)),
            Err(e) => Err(e),
        }
    }

    /// Reads a message: a name, and its arguments in parentheses where `(`
    /// follows the name directly. A name alone is a leaf.
    pub fn parse_message(&mut self) -> (r: Result<Ast, ParseError>)
        ensures
            final(self).input() == old(self).input(),
            final(self).remaining() == message(old(self).remaining()).rest(),
            yields(message(old(self).remaining()), r),
        decreases old(self).remaining().len(), 2nat,
    {
        let name = match self.peek() {
            Some(Token::Identifier(name)) => name.clone(),
            _ => {
                return Err(self.mismatch(Expected::Identifier));
            },
        };
        self.bump();
        if !self.at(Punct::LeftParen) {
            return Ok(Ast::Leaf { name });
        }
        self.bump();
        proof {
            assert(old(self).remaining().skip(1).skip(1) =~= old(self).remaining().skip(2));
            lemma_skips(self.remaining());
        }
        self.skip_blank();
        match self.parse_arguments() {
            Ok(args) => Ok(Ast::Message { name, args }),
            Err(e) => Err(e),
        }
    }

    fn parse_arguments(&mut self) -> (r: Result<Vec<Ast>, ParseError>)
        ensures
            final(self).input() == old(self).input(),
            final(self).remaining() == arguments(old(self).remaining()).rest(),
            yields_all(arguments(old(self).remaining()), r),
        decreases old(self).remaining().len(), 4nat,
    {
        let mut out: Vec<Ast> = Vec::new();
        let ghost start = self.remaining();
        assert(ast_views(out@) + arguments(start)->Done_node =~= arguments(start)->Done_node);
        loop
            invariant
                start == old(self).remaining(),
                self.input() == old(self).input(),
                self.remaining().len() <= start.len(),
                arguments(start) == prepend(ast_views(out@), arguments(self.remaining())),
            decreases self.remaining().len(),
        {
            let ghost here = self.remaining();
            let ghost done = ast_views(out@);
            proof {
                lemma_consumes(here);
            }
            if self.at(Punct::RightParen) {
                self.bump();
                assert(done + Seq::<AstView>::empty() =~= done);
                return Ok(out);
            }
            let first = match self.parse_value() {
                Ok(node) => node,
                Err(e) => {
                    return Err(e);
                },
            };
            let ghost first_view = first@;
            out.push(first);
            assert(ast_views(out@) =~= done.push(first_view));
            proof {
                lemma_skips(self.remaining());
            }
            self.skip_blank();
            if self.at(Punct::Comma) {
                self.bump();
                proof {
                    lemma_skips(self.remaining());
                }
                self.skip_blank();
                proof {
                    if let Parsed::Done { node: more, .. } = arguments(self.remaining()) {
                        assert(done + (seq![first_view] + more) =~= ast_views(out@) + more);
                    }
                }
            } else if self.at(Punct::RightParen) {
                self.bump();
                assert(done + seq![first_view] =~= ast_views(out@));
                return Ok(out);
            } else {
                return Err(self.mismatch(Expected::Symbol(Punct::RightParen)));
            }
        }
    }

    /// Reads a definition: a struct or a message.
    pub fn parse_definition(&mut self) -> (r: Result<Ast, ParseError>)
        ensures
            final(self).input() == old(self).input(),
            final(self).remaining() == definition(old(self).remaining()).rest(),
            yields(definition(old(self).remaining()), r),
    {
        match self.peek() {
            Some(Token::Symbol(Punct::LeftBrace)) => self.parse_struct(),
            Some(Token::Identifier(_)) => self.parse_message(),
            _ => Err(self.mismatch(Expected::Definition)),
        }
    }

    fn end_line(&mut self, node: Ast) -> (r: Result<Ast, ParseError>)
        ensures
            final(self).input() == old(self).input(),
            final(self).remaining() == line_end(
                (Parsed::Done { node: node@, rest: old(self).remaining() }),
            ).rest(),
            yields(line_end((Parsed::Done { node: node@, rest: old(self).remaining() })), r),
    {
        self.skip_whitespace();
        if !self.at_newline() {
            return Err(self.mismatch(Expected::Newline));
        }
        self.bump();
        Ok(node)
    }

    /// Reads a statement: a target alone, an annotated edge or an
    /// assignment, up to and with the end of its line.
    pub fn parse_statement(&mut self) -> (r: Result<Ast, ParseError>)
        ensures
            final(self).input() == old(self).input(),
            final(self).remaining() == statement(old(self).remaining()).rest(),
            yields(statement(old(self).remaining()), r),
    {
        let t = match self.parse_target() {
            Ok(node) => node,
            Err(e) => {
                return Err(e);
            },
        };
        self.skip_whitespace();
        if self.at_newline() {
            self.bump();
            return Ok(t);
        }
        if self.at(Punct::Colon) {
            let is_edge = match &t {
                Ast::Edge { .. } => true,
                _ => false,
            };
            if !is_edge {
                return Err(ParseError::UnexpectedTarget { context: Continuation::Annotation });
            }
            self.bump();
            self.skip_whitespace();
            let d = match self.parse_definition() {
                Ok(node) => node,
                Err(e) => {
                    return Err(e);
                },
            };
            match self.end_line(d) {
                Ok(d) => Ok(Ast::EdgeDef { target: Box::new(t), stmt: Box::new(d) }),
                Err(e) => Err(e),
            }
        } else if self.at(Punct::Equals) {
            let is_leaf = match &t {
                Ast::Leaf { .. } => true,
                _ => false,
            };
            if !is_leaf {
                return Err(ParseError::UnexpectedTarget { context: Continuation::Assignment });
            }
            self.bump();
            self.skip_whitespace();
            let v = match self.parse_value() {
                Ok(node) => node,
                Err(e) => {
                    return Err(e);
                },
            };
            match self.end_line(v) {
                Ok(v) => Ok(Ast::LeafDef { target: Box::new(t), stmt: Box::new(v) }),
                Err(e) => Err(e),
            }
        } else {
            Err(self.mismatch(Expected::Newline))
        }
    }

    /// Reads the statements of a block, up to the end of the input, the
    /// `[` of the next block or a blank line, whichever comes first.
    pub fn parse_content(&mut self) -> (r: Result<Vec<Ast>, ParseError>)
        ensures
            final(self).input() == old(self).input(),
            final(self).remaining() == content(old(self).remaining()).rest(),
            yields_all(content(old(self).remaining()), r),
    {
        let mut out: Vec<Ast> = Vec::new();
        let ghost start = self.remaining();
        assert(ast_views(out@) + content(start)->Done_node =~= content(start)->Done_node);
        loop
            invariant
                start == old(self).remaining(),
                self.input() == old(self).input(),
                content(start) == prepend(ast_views(out@), content(self.remaining())),
            decreases self.remaining().len(),
        {
            let ghost done = ast_views(out@);
            proof {
                lemma_skips(self.remaining());
            }
            self.skip_whitespace();
            proof {
                lemma_statement_consumes(self.remaining());
            }
            if self.is_done() || self.at(Punct::LeftBracket) || self.at_newline() {
                assert(done + Seq::<AstView>::empty() =~= done);
                return Ok(out);
            }
            let first = match self.parse_statement() {
                Ok(node) => node,
                Err(e) => {
                    return Err(e);
                },
            };
            let ghost first_view = first@;
            out.push(first);
            proof {
                assert(ast_views(out@) =~= done.push(first_view));
                if let Parsed::Done { node: more, .. } = content(self.remaining()) {
                    assert(done + (seq![first_view] + more) =~= ast_views(out@) + more);
                }
            }
        }
    }

    /// Reads a block: its header `[name]` on a line of its own, and its
    /// content.
    pub fn parse_block(&mut self) -> (r: Result<Ast, ParseError>)
        ensures
            final(self).input() == old(self).input(),
            final(self).remaining() == block(old(self).remaining()).rest(),
            yields(block(old(self).remaining()), r),
    {
        if !self.at(Punct::LeftBracket) {
            return Err(self.mismatch(Expected::Symbol(Punct::LeftBracket)));
        }
        self.bump();
        let name = match self.peek() {
            Some(Token::Identifier(name)) => name.clone(),
            _ => {
                return Err(self.mismatch(Expected::Identifier));
            },
        };
        self.bump();
        proof {
            assert(old(self).remaining().skip(1).skip(1) =~= old(self).remaining().skip(2));
        }
        if !self.at(Punct::RightBracket) {
            return Err(self.mismatch(Expected::Symbol(Punct::RightBracket)));
        }
        self.bump();
        proof {
            assert(old(self).remaining().skip(2).skip(1) =~= old(self).remaining().skip(3));
        }
        self.skip_whitespace();
        if !self.at_newline() {
            return Err(self.mismatch(Expected::Newline));
        }
        self.bump();
        match self.parse_content() {
            Ok(content) => Ok(Ast::Block { name, content }),
            Err(e) => Err(e),
        }
    }

    /// Reads blocks up to the end of the input, where it stops unless it
    /// fails.
    pub fn parse_blocks(&mut self) -> (r: Result<Vec<Ast>, ParseError>)
        ensures
            final(self).input() == old(self).input(),
            final(self).remaining() == document(old(self).remaining()).rest(),
            yields_all(document(old(self).remaining()), r),
            r is Ok ==> final(self).remaining().len() == 0,
    {
        let mut out: Vec<Ast> = Vec::new();
        let ghost start = self.remaining();
        proof {
            lemma_document_reads_all(start);
        }
        assert(ast_views(out@) + document(start)->Done_node =~= document(start)->Done_node);
        loop
            invariant
                start == old(self).remaining(),
                self.input() == old(self).input(),
                document(start) == prepend(ast_views(out@), document(self.remaining())),
            decreases self.remaining().len(),
        {
            let ghost done = ast_views(out@);
            proof {
                lemma_skips(self.remaining());
            }
            self.skip_blank();
            proof {
                lemma_block_consumes(self.remaining());
            }
            if self.is_done() {
                assert(done + Seq::<AstView>::empty() =~= done);
                return Ok(out);
            }
            let first = match self.parse_block() {
                Ok(node) => node,
                Err(e) => {
                    return Err(e);
                },
            };
            let ghost first_view = first@;
            out.push(first);
            proof {
                assert(ast_views(out@) =~= done.push(first_view));
                if let Parsed::Done { node: more, .. } = document(self.remaining()) {
                    assert(done + (seq![first_view] + more) =~= ast_views(out@) + more);
                }
            }
        }
    }

    /// Reads the whole input as a document: the blocks up to the end of the
    /// input, reduced and entered under their names. Of two blocks with
    /// the same name the first stays. An error is always one of the parser:
    /// the blocks that it reads do make a document.
    pub fn parse(&mut self) -> (r: Result<Document, Error>)
        ensures
            final(self).input() == old(self).input(),
            final(self).remaining() == document(old(self).remaining()).rest(),
            match described(old(self).remaining()) {
                Ok(entries) => r matches Ok(d) && d@ == entries,
                Err(error) => r matches Err(e) && e@ == error && e is Parse,
            },
            r is Ok ==> final(self).remaining().len() == 0,
    {
        proof {
            if document(self.remaining()) is Done {
                law_parsed_blocks_assemble(self.remaining());
            }
        }
        let blocks = match self.parse_blocks() {
            Ok(blocks) => blocks,
            Err(e) => {
                return Err(Error::Parse(e));
            },
        };
        match Document::assemble(reduce_all(blocks)) {
            Ok(document) => Ok(document),
            Err(e) => Err(Error::Conversion(e)),
        }
    }
}

} // verus!
