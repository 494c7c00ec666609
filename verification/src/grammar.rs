//! The grammar, as pure functions of the tokens that are still to be read.
//!
//! ```text
//! document  := block*
//! block     := '[' Identifier ']' Whitespace* Newline content
//! content   := statement*
//! statement := target (Newline | ':' definition Newline | '=' value Newline)
//! target    := key (Arrow key)?
//! key       := Identifier | String | Number
//! definition := struct | message
//! value     := struct | String | Number | message
//! struct    := '{' (pair (',' pair)*)? '}'
//! pair      := key ':' value
//! message   := Identifier ('(' (value (',' value)*)? ')')?
//! ```
//!
//! Each production is a function from the remaining tokens to a [`Parsed`]:
//! the node that was read and the tokens after it, or the error and the
//! tokens at which it was met. Because a production sees nothing but the
//! remaining tokens, what it does never depends on what was read before.
use vstd::prelude::*;
use crate::ast::AstView;
use crate::chars::{lemma_run_len, run_len};
use crate::error::{Continuation, Expected, ParseErrorView};
use crate::token::{Punct, TokenView};

verus! {

/// The outcome of a production.
pub enum Parsed<T> {
    /// `node` was read; `rest` follows it.
    Done { node: T, rest: Seq<TokenView> },
    /// `error` was met at the head of `rest`.
    Failed { error: ParseErrorView, rest: Seq<TokenView> },
}

impl<T> Parsed<T> {
    /// The tokens at which the production stopped, whichever way it ended.
    pub open spec fn rest(self) -> Seq<TokenView> {
        match self {
            Parsed::Done { rest, .. } => rest,
            Parsed::Failed { rest, .. } => rest,
        }
    }
}

/// The next token, if there is one.
pub open spec fn head(ts: Seq<TokenView>) -> Option<TokenView> {
    if ts.len() > 0 {
        Some(ts[0])
    } else {
        None
    }
}

/// Whether the next token is `t`.
pub open spec fn starts_with(ts: Seq<TokenView>, t: TokenView) -> bool {
    ts.len() > 0 && ts[0] == t
}

/// Whether the next token is the punctuation mark `p`.
pub open spec fn at_punct(ts: Seq<TokenView>, p: Punct) -> bool {
    starts_with(ts, TokenView::Symbol(p))
}

/// The failure of a production that needs `expected` at the head of `ts`
/// and does not find it there.
pub open spec fn mismatch<T>(expected: Expected, ts: Seq<TokenView>) -> Parsed<T> {
    Parsed::Failed { error: ParseErrorView::ExpectedToken { expected, found: head(ts) }, rest: ts }
}

/// The tokens that `skip_whitespace` passes over.
pub open spec fn spaces() -> spec_fn(TokenView) -> bool {
    |t: TokenView| t is Whitespace
}

/// The tokens that `skip_blank` passes over.
pub open spec fn gaps() -> spec_fn(TokenView) -> bool {
    |t: TokenView| t is Whitespace || t is Newline
}

/// `ts` without the `Whitespace` tokens at its head. A `Newline` stops the
/// skip: this is said where the end of the line matters.
pub open spec fn skip_whitespace(ts: Seq<TokenView>) -> Seq<TokenView> {
    ts.skip(run_len(ts, spaces()) as int)
}

/// `ts` without the `Whitespace` and `Newline` tokens at its head: this is
/// said where blank lines do not matter.
pub open spec fn skip_blank(ts: Seq<TokenView>) -> Seq<TokenView> {
    ts.skip(run_len(ts, gaps()) as int)
}

/// A skip removes nothing but the tokens it is meant for, and stops at
/// the first other token.
pub proof fn lemma_skips(ts: Seq<TokenView>)
    ensures
        skip_whitespace(ts).len() <= ts.len(),
        skip_blank(ts).len() <= ts.len(),
        skip_whitespace(ts).len() > 0 ==> !(skip_whitespace(ts)[0] is Whitespace),
        skip_blank(ts).len() > 0 ==> !(skip_blank(ts)[0] is Whitespace) && !(skip_blank(
            ts,
        )[0] is Newline),
{
    lemma_run_len(ts, spaces());
    lemma_run_len(ts, gaps());
}

/// `key := Identifier | String | Number`
pub open spec fn key(ts: Seq<TokenView>) -> Parsed<AstView> {
    match head(ts) {
        Some(TokenView::Identifier(name)) => Parsed::Done {
            node: AstView::Leaf { name },
            rest: ts.skip(1),
        },
        Some(TokenView::String(text)) => Parsed::Done {
            node: AstView::String(text),
            rest: ts.skip(1),
        },
        Some(TokenView::Number(text)) => Parsed::Done {
            node: AstView::Number(text),
            rest: ts.skip(1),
        },
        _ => mismatch(Expected::Key, ts),
    }
}

/// `target := key (Arrow key)?`
///
/// The arrow is looked for past any whitespace. Where there is none, the
/// target is the key alone and ends right after it: the whitespace that was
/// looked past is not consumed.
pub open spec fn target(ts: Seq<TokenView>) -> Parsed<AstView> {
    match key(ts) {
        Parsed::Failed { error, rest } => Parsed::Failed { error, rest },
        Parsed::Done { node: from, rest } => {
            let ahead = skip_whitespace(rest);
            if starts_with(ahead, TokenView::Arrow) {
                match key(skip_whitespace(ahead.skip(1))) {
                    Parsed::Failed { error, rest: at } => Parsed::Failed { error, rest: at },
                    Parsed::Done { node: to, rest: after } => Parsed::Done {
                        node: AstView::Edge { from: Box::new(from), to: Box::new(to) },
                        rest: after,
                    },
                }
            } else {
                Parsed::Done { node: from, rest }
            }
        },
    }
}

/// `value := struct | String | Number | message`
pub open spec fn value(ts: Seq<TokenView>) -> Parsed<AstView>
    decreases ts.len(), 3nat,
{
    match head(ts) {
        Some(TokenView::Symbol(Punct::LeftBrace)) => structure(ts),
        Some(TokenView::String(text)) => Parsed::Done {
            node: AstView::String(text),
            rest: ts.skip(1),
        },
        Some(TokenView::Number(text)) => Parsed::Done {
            node: AstView::Number(text),
            rest: ts.skip(1),
        },
        Some(TokenView::Identifier(_)) => message(ts),
        _ => mismatch(Expected::Value, ts),
    }
}

/// `struct := '{' (pair (',' pair)*)? '}'`
pub open spec fn structure(ts: Seq<TokenView>) -> Parsed<AstView>
    decreases ts.len(), 2nat,
{
    if at_punct(ts, Punct::LeftBrace) {
        proof {
            lemma_skips(ts.skip(1));
        }
        match entries(skip_blank(ts.skip(1))) {
            Parsed::Failed { error, rest } => Parsed::Failed { error, rest },
            Parsed::Done { node, rest } => Parsed::Done { node: AstView::Struct(node), rest },
        }
    } else {
        mismatch(Expected::Symbol(Punct::LeftBrace), ts)
    }
}

/// What stands between the braces of a struct, and the closing brace.
/// Blank lines may stand around every token. A comma may follow the
/// last pair.
///
/// (The comparison of lengths is there to make the recursion end, and for
/// nothing else: [`lemma_consumes`] shows that a pair always takes at least
/// one token, so the last branch is never taken.)
pub open spec fn entries(ts: Seq<TokenView>) -> Parsed<Seq<(AstView, AstView)>>
    decreases ts.len(), 1nat,
{
    if at_punct(ts, Punct::RightBrace) {
        Parsed::Done { node: Seq::empty(), rest: ts.skip(1) }
    } else {
        match pair(ts) {
            Parsed::Failed { error, rest } => Parsed::Failed { error, rest },
            Parsed::Done { node: first, rest } => {
                let ahead = skip_blank(rest);
                if !at_punct(ahead, Punct::Comma) {
                    if at_punct(ahead, Punct::RightBrace) {
                        Parsed::Done { node: seq![first], rest: ahead.skip(1) }
                    } else {
                        mismatch(Expected::Symbol(Punct::RightBrace), ahead)
                    }
                } else if skip_blank(ahead.skip(1)).len() < ts.len() {
                    match entries(skip_blank(ahead.skip(1))) {
                        Parsed::Failed { error, rest: at } => Parsed::Failed { error, rest: at },
                        Parsed::Done { node: more, rest: after } => Parsed::Done {
                            node: seq![first] + more,
                            rest: after,
                        },
                    }
                } else {
                    mismatch(Expected::Symbol(Punct::RightBrace), ahead)
                }
            },
        }
    }
}

/// `pair := key ':' value`
pub open spec fn pair(ts: Seq<TokenView>) -> Parsed<(AstView, AstView)>
    decreases ts.len(), 0nat,
{
    match key(ts) {
        Parsed::Failed { error, rest } => Parsed::Failed { error, rest },
        Parsed::Done { node: k, rest } => {
            let ahead = skip_blank(rest);
            if at_punct(ahead, Punct::Colon) {
                proof {
                    lemma_skips(rest);
                    lemma_skips(ahead.skip(1));
                }
                match value(skip_blank(ahead.skip(1))) {
                    Parsed::Failed { error, rest: at } => Parsed::Failed { error, rest: at },
                    Parsed::Done { node: v, rest: after } => Parsed::Done {
                        node: (k, v),
                        rest: after,
                    },
                }
            } else {
                mismatch(Expected::Symbol(Punct::Colon), ahead)
            }
        },
    }
}

/// `message := Identifier ('(' (value (',' value)*)? ')')?`
///
/// An identifier is a call only where `(` follows it directly; alone it is
/// a leaf.
pub open spec fn message(ts: Seq<TokenView>) -> Parsed<AstView>
    decreases ts.len(), 2nat,
{
    match head(ts) {
        Some(TokenView::Identifier(name)) => {
            if at_punct(ts.skip(1), Punct::LeftParen) {
                proof {
                    lemma_skips(ts.skip(2));
                }
                match arguments(skip_blank(ts.skip(2))) {
                    Parsed::Failed { error, rest } => Parsed::Failed { error, rest },
                    Parsed::Done { node: args, rest } => Parsed::Done {
                        node: AstView::Message { name, args },
                        rest,
                    },
                }
            } else {
                Parsed::Done { node: AstView::Leaf { name }, rest: ts.skip(1) }
            }
        },
        _ => mismatch(Expected::Identifier, ts),
    }
}

/// What stands between the parentheses of a message, and the closing
/// parenthesis. Blank lines may stand around every token. A comma may
/// follow the last argument.
///
/// (As in [`entries`], the comparison of lengths only makes the recursion
/// end.)
pub open spec fn arguments(ts: Seq<TokenView>) -> Parsed<Seq<AstView>>
    decreases ts.len(), 4nat,
{
    if at_punct(ts, Punct::RightParen) {
        Parsed::Done { node: Seq::empty(), rest: ts.skip(1) }
    } else {
        match value(ts) {
            Parsed::Failed { error, rest } => Parsed::Failed { error, rest },
            Parsed::Done { node: first, rest } => {
                let ahead = skip_blank(rest);
                if !at_punct(ahead, Punct::Comma) {
                    if at_punct(ahead, Punct::RightParen) {
                        Parsed::Done { node: seq![first], rest: ahead.skip(1) }
                    } else {
                        mismatch(Expected::Symbol(Punct::RightParen), ahead)
                    }
                } else if skip_blank(ahead.skip(1)).len() < ts.len() {
                    match arguments(skip_blank(ahead.skip(1))) {
                        Parsed::Failed { error, rest: at } => Parsed::Failed { error, rest: at },
                        Parsed::Done { node: more, rest: after } => Parsed::Done {
                            node: seq![first] + more,
                            rest: after,
                        },
                    }
                } else {
                    mismatch(Expected::Symbol(Punct::RightParen), ahead)
                }
            },
        }
    }
}

/// Whether `rest` is what is left of `ts` after some tokens were taken
/// from its head.
pub open spec fn is_tail_of(rest: Seq<TokenView>, ts: Seq<TokenView>) -> bool {
    rest.len() <= ts.len() && rest =~= ts.skip(ts.len() - rest.len())
}

/// A production that succeeds stops behind the tokens it has read.
pub open spec fn consumes<T>(p: Parsed<T>, ts: Seq<TokenView>) -> bool {
    &&& is_tail_of(p.rest(), ts)
    &&& p is Done ==> p.rest().len() < ts.len()
}

/// The tail of a tail is a tail.
pub proof fn lemma_tail_of_tail(a: Seq<TokenView>, b: Seq<TokenView>, c: Seq<TokenView>)
    requires
        is_tail_of(a, b),
        is_tail_of(b, c),
    ensures
        is_tail_of(a, c),
{
    assert(c.skip(c.len() - b.len()).skip(b.len() - a.len()) =~= c.skip(c.len() - a.len()));
}

/// What a skip leaves is a tail of what it was given.
pub proof fn lemma_skips_tail(ts: Seq<TokenView>)
    ensures
        is_tail_of(skip_whitespace(ts), ts),
        is_tail_of(skip_blank(ts), ts),
{
    lemma_run_len(ts, spaces());
    lemma_run_len(ts, gaps());
}

/// Every production of a value stops at a tail of its input, and behind at
/// least one token where it succeeds. So lists of values and of pairs end.
pub proof fn lemma_consumes(ts: Seq<TokenView>)
    ensures
        consumes(key(ts), ts),
        consumes(target(ts), ts),
        consumes(value(ts), ts),
        consumes(structure(ts), ts),
        consumes(message(ts), ts),
        consumes(pair(ts), ts),
        consumes(entries(ts), ts),
        consumes(arguments(ts), ts),
{
    lemma_target_consumes(ts);
    lemma_value_consumes(ts);
    lemma_structure_consumes(ts);
    lemma_message_consumes(ts);
    lemma_pair_consumes(ts);
    lemma_entries_consumes(ts);
    lemma_arguments_consumes(ts);
}

proof fn lemma_target_consumes(ts: Seq<TokenView>)
    ensures
        consumes(key(ts), ts),
        consumes(target(ts), ts),
{
    if let Parsed::Done { rest, .. } = key(ts) {
        let ahead = skip_whitespace(rest);
        lemma_skips_tail(rest);
        lemma_tail_of_tail(ahead, rest, ts);
        if starts_with(ahead, TokenView::Arrow) {
            let next = skip_whitespace(ahead.skip(1));
            lemma_skips_tail(ahead.skip(1));
            lemma_tail_of_tail(ahead.skip(1), ahead, ts);
            lemma_tail_of_tail(next, ahead.skip(1), ts);
            lemma_tail_of_tail(key(next).rest(), next, ts);
        }
    }
}

proof fn lemma_value_consumes(ts: Seq<TokenView>)
    ensures
        consumes(value(ts), ts),
    decreases ts.len(), 3nat,
{
    match head(ts) {
        Some(TokenView::Symbol(Punct::LeftBrace)) => lemma_structure_consumes(ts),
        Some(TokenView::Identifier(_)) => lemma_message_consumes(ts),
        _ => {},
    }
}

proof fn lemma_structure_consumes(ts: Seq<TokenView>)
    ensures
        consumes(structure(ts), ts),
    decreases ts.len(), 2nat,
{
    if at_punct(ts, Punct::LeftBrace) {
        let inner = skip_blank(ts.skip(1));
        lemma_skips_tail(ts.skip(1));
        lemma_tail_of_tail(inner, ts.skip(1), ts);
        lemma_entries_consumes(inner);
        lemma_tail_of_tail(entries(inner).rest(), inner, ts);
    }
}

proof fn lemma_entries_consumes(ts: Seq<TokenView>)
    ensures
        consumes(entries(ts), ts),
    decreases ts.len(), 1nat,
{
    if !at_punct(ts, Punct::RightBrace) {
        lemma_pair_consumes(ts);
        if let Parsed::Done { rest, .. } = pair(ts) {
            let ahead = skip_blank(rest);
            lemma_skips_tail(rest);
            lemma_tail_of_tail(ahead, rest, ts);
            if at_punct(ahead, Punct::Comma) {
                let next = skip_blank(ahead.skip(1));
                lemma_skips_tail(ahead.skip(1));
                lemma_tail_of_tail(ahead.skip(1), ahead, ts);
                lemma_tail_of_tail(next, ahead.skip(1), ts);
                lemma_entries_consumes(next);
                lemma_tail_of_tail(entries(next).rest(), next, ts);
            } else if at_punct(ahead, Punct::RightBrace) {
                lemma_tail_of_tail(ahead.skip(1), ahead, ts);
            }
        }
    }
}

proof fn lemma_pair_consumes(ts: Seq<TokenView>)
    ensures
        consumes(pair(ts), ts),
    decreases ts.len(), 0nat,
{
    if let Parsed::Done { rest, .. } = key(ts) {
        let ahead = skip_blank(rest);
        lemma_skips_tail(rest);
        lemma_tail_of_tail(ahead, rest, ts);
        if at_punct(ahead, Punct::Colon) {
            let next = skip_blank(ahead.skip(1));
            lemma_skips_tail(ahead.skip(1));
            lemma_tail_of_tail(ahead.skip(1), ahead, ts);
            lemma_tail_of_tail(next, ahead.skip(1), ts);
            lemma_value_consumes(next);
            lemma_tail_of_tail(value(next).rest(), next, ts);
        }
    }
}

proof fn lemma_message_consumes(ts: Seq<TokenView>)
    ensures
        consumes(message(ts), ts),
    decreases ts.len(), 2nat,
{
    if head(ts) matches Some(TokenView::Identifier(_)) {
        if at_punct(ts.skip(1), Punct::LeftParen) {
            let inner = skip_blank(ts.skip(2));
            lemma_skips_tail(ts.skip(2));
            assert(ts.skip(1).skip(1) =~= ts.skip(2));
            lemma_tail_of_tail(inner, ts.skip(2), ts);
            lemma_arguments_consumes(inner);
            lemma_tail_of_tail(arguments(inner).rest(), inner, ts);
        }
    }
}

proof fn lemma_arguments_consumes(ts: Seq<TokenView>)
    ensures
        consumes(arguments(ts), ts),
    decreases ts.len(), 4nat,
{
    if !at_punct(ts, Punct::RightParen) {
        lemma_value_consumes(ts);
        if let Parsed::Done { rest, .. } = value(ts) {
            let ahead = skip_blank(rest);
            lemma_skips_tail(rest);
            lemma_tail_of_tail(ahead, rest, ts);
            if at_punct(ahead, Punct::Comma) {
                let next = skip_blank(ahead.skip(1));
                lemma_skips_tail(ahead.skip(1));
                lemma_tail_of_tail(ahead.skip(1), ahead, ts);
                lemma_tail_of_tail(next, ahead.skip(1), ts);
                lemma_arguments_consumes(next);
                lemma_tail_of_tail(arguments(next).rest(), next, ts);
            } else if at_punct(ahead, Punct::RightParen) {
                lemma_tail_of_tail(ahead.skip(1), ahead, ts);
            }
        }
    }
}

/// `definition := struct | message`
pub open spec fn definition(ts: Seq<TokenView>) -> Parsed<AstView> {
    match head(ts) {
        Some(TokenView::Symbol(Punct::LeftBrace)) => structure(ts),
        Some(TokenView::Identifier(_)) => message(ts),
        _ => mismatch(Expected::Definition, ts),
    }
}

/// The end of a statement that has a right-hand side: where the right-hand
/// side was read, whitespace and the end of the line have to follow it.
pub open spec fn line_end(p: Parsed<AstView>) -> Parsed<AstView> {
    match p {
        Parsed::Failed { error, rest } => Parsed::Failed { error, rest },
        Parsed::Done { node, rest } => {
            let ahead = skip_whitespace(rest);
            if starts_with(ahead, TokenView::Newline) {
                Parsed::Done { node, rest: ahead.skip(1) }
            } else {
                mismatch(Expected::Newline, ahead)
            }
        },
    }
}

/// What follows the `:` of a statement: whitespace, a definition, and the
/// end of the line.
pub open spec fn annotation(ts: Seq<TokenView>) -> Parsed<AstView> {
    line_end(definition(skip_whitespace(ts)))
}

/// What follows the `=` of a statement: whitespace, a value, and the end of
/// the line.
pub open spec fn assignment(ts: Seq<TokenView>) -> Parsed<AstView> {
    line_end(value(skip_whitespace(ts)))
}

/// `statement := target (Newline | ':' definition Newline | '=' value Newline)`
///
/// A target alone is a statement. `:` annotates an edge and nothing else;
/// `=` assigns to a leaf and to nothing else.
pub open spec fn statement(ts: Seq<TokenView>) -> Parsed<AstView> {
    match target(ts) {
        Parsed::Failed { error, rest } => Parsed::Failed { error, rest },
        Parsed::Done { node: t, rest } => {
            let ahead = skip_whitespace(rest);
            if starts_with(ahead, TokenView::Newline) {
                Parsed::Done { node: t, rest: ahead.skip(1) }
            } else if at_punct(ahead, Punct::Colon) {
                if t is Edge {
                    match annotation(ahead.skip(1)) {
                        Parsed::Failed { error, rest: at } => Parsed::Failed { error, rest: at },
                        Parsed::Done { node: d, rest: after } => Parsed::Done {
                            node: AstView::EdgeDef { target: Box::new(t), stmt: Box::new(d) },
                            rest: after,
                        },
                    }
                } else {
                    Parsed::Failed {
                        error: ParseErrorView::UnexpectedTarget { context: Continuation::Annotation },
                        rest: ahead,
                    }
                }
            } else if at_punct(ahead, Punct::Equals) {
                if t is Leaf {
                    match assignment(ahead.skip(1)) {
                        Parsed::Failed { error, rest: at } => Parsed::Failed { error, rest: at },
                        Parsed::Done { node: d, rest: after } => Parsed::Done {
                            node: AstView::LeafDef { target: Box::new(t), stmt: Box::new(d) },
                            rest: after,
                        },
                    }
                } else {
                    Parsed::Failed {
                        error: ParseErrorView::UnexpectedTarget { context: Continuation::Assignment },
                        rest: ahead,
                    }
                }
            } else {
                mismatch(Expected::Newline, ahead)
            }
        },
    }
}

/// A statement, too, stops at a tail of its input, and behind at least one
/// token where it succeeds; so do its parts.
pub proof fn lemma_statement_consumes(ts: Seq<TokenView>)
    ensures
        consumes(definition(ts), ts),
        consumes(annotation(ts), ts),
        consumes(assignment(ts), ts),
        consumes(statement(ts), ts),
{
    lemma_consumes(ts);
    lemma_right_side_consumes(ts);
    if let Parsed::Done { rest, .. } = target(ts) {
        let ahead = skip_whitespace(rest);
        lemma_skips_tail(rest);
        lemma_tail_of_tail(ahead, rest, ts);
        if ahead.len() > 0 {
            lemma_tail_of_tail(ahead.skip(1), ahead, ts);
            lemma_right_side_consumes(ahead.skip(1));
            lemma_tail_of_tail(annotation(ahead.skip(1)).rest(), ahead.skip(1), ts);
            lemma_tail_of_tail(assignment(ahead.skip(1)).rest(), ahead.skip(1), ts);
        }
    }
}

proof fn lemma_line_end_consumes(p: Parsed<AstView>, ts: Seq<TokenView>)
    requires
        consumes(p, ts),
    ensures
        consumes(line_end(p), ts),
{
    if let Parsed::Done { rest, .. } = p {
        let ahead = skip_whitespace(rest);
        lemma_skips_tail(rest);
        lemma_tail_of_tail(ahead, rest, ts);
        if ahead.len() > 0 {
            lemma_tail_of_tail(ahead.skip(1), ahead, ts);
        }
    }
}

proof fn lemma_right_side_consumes(ts: Seq<TokenView>)
    ensures
        consumes(annotation(ts), ts),
        consumes(assignment(ts), ts),
{
    let start = skip_whitespace(ts);
    lemma_skips_tail(ts);
    lemma_consumes(start);
    let d = definition(start);
    let v = value(start);
    lemma_tail_of_tail(d.rest(), start, ts);
    lemma_tail_of_tail(v.rest(), start, ts);
    lemma_line_end_consumes(d, ts);
    lemma_line_end_consumes(v, ts);
}

/// Whether the content of a block ends at the head of `ts`: at the end of
/// the input, at the `[` of the next block, or at a blank line.
pub open spec fn content_ends(ts: Seq<TokenView>) -> bool {
    ts.len() == 0 || at_punct(ts, Punct::LeftBracket) || starts_with(ts, TokenView::Newline)
}

/// `content := statement*`
///
/// Whitespace may stand before each statement. The content ends where
/// [`content_ends`] says so, without consuming what ends it; a block whose
/// first line is blank is empty.
pub open spec fn content(ts: Seq<TokenView>) -> Parsed<Seq<AstView>>
    decreases ts.len(),
{
    let here = skip_whitespace(ts);
    if content_ends(here) {
        Parsed::Done { node: Seq::empty(), rest: here }
    } else {
        match statement(here) {
            Parsed::Failed { error, rest } => Parsed::Failed { error, rest },
            Parsed::Done { node: first, rest } => {
                proof {
                    lemma_skips(ts);
                    lemma_statement_consumes(here);
                }
                match content(rest) {
                    Parsed::Failed { error, rest: at } => Parsed::Failed { error, rest: at },
                    Parsed::Done { node: more, rest: after } => Parsed::Done {
                        node: seq![first] + more,
                        rest: after,
                    },
                }
            },
        }
    }
}

/// `block := '[' Identifier ']' Whitespace* Newline content`
pub open spec fn block(ts: Seq<TokenView>) -> Parsed<AstView> {
    if !at_punct(ts, Punct::LeftBracket) {
        mismatch(Expected::Symbol(Punct::LeftBracket), ts)
    } else {
        match head(ts.skip(1)) {
            Some(TokenView::Identifier(name)) => {
                if !at_punct(ts.skip(2), Punct::RightBracket) {
                    mismatch(Expected::Symbol(Punct::RightBracket), ts.skip(2))
                } else {
                    let ahead = skip_whitespace(ts.skip(3));
                    if !starts_with(ahead, TokenView::Newline) {
                        mismatch(Expected::Newline, ahead)
                    } else {
                        match content(ahead.skip(1)) {
                            Parsed::Failed { error, rest } => Parsed::Failed { error, rest },
                            Parsed::Done { node: body, rest } => Parsed::Done {
                                node: AstView::Block { name, content: body },
                                rest,
                            },
                        }
                    }
                }
            },
            _ => mismatch(Expected::Identifier, ts.skip(1)),
        }
    }
}

/// The content of a block stops at a tail of its input; a block does so
/// too, and behind at least one token where it succeeds.
pub proof fn lemma_block_consumes(ts: Seq<TokenView>)
    ensures
        is_tail_of(content(ts).rest(), ts),
        consumes(block(ts), ts),
{
    lemma_content_tail(ts);
    if at_punct(ts, Punct::LeftBracket) {
        if head(ts.skip(1)) matches Some(TokenView::Identifier(_)) {
            assert(ts.skip(1).skip(1) =~= ts.skip(2));
            if at_punct(ts.skip(2), Punct::RightBracket) {
                assert(ts.skip(2).skip(1) =~= ts.skip(3));
                let ahead = skip_whitespace(ts.skip(3));
                lemma_skips_tail(ts.skip(3));
                lemma_tail_of_tail(ahead, ts.skip(3), ts);
                if starts_with(ahead, TokenView::Newline) {
                    lemma_tail_of_tail(ahead.skip(1), ahead, ts);
                    lemma_content_tail(ahead.skip(1));
                    lemma_tail_of_tail(content(ahead.skip(1)).rest(), ahead.skip(1), ts);
                }
            }
        }
    }
}

proof fn lemma_content_tail(ts: Seq<TokenView>)
    ensures
        is_tail_of(content(ts).rest(), ts),
    decreases ts.len(),
{
    let here = skip_whitespace(ts);
    lemma_skips_tail(ts);
    if !content_ends(here) {
        lemma_statement_consumes(here);
        lemma_tail_of_tail(statement(here).rest(), here, ts);
        if let Parsed::Done { rest, .. } = statement(here) {
            lemma_content_tail(rest);
            lemma_tail_of_tail(content(rest).rest(), rest, ts);
        }
    }
}

/// `document := block*`
///
/// Blank lines may stand before each block and after the last.
pub open spec fn document(ts: Seq<TokenView>) -> Parsed<Seq<AstView>>
    decreases ts.len(),
{
    let here = skip_blank(ts);
    if here.len() == 0 {
        Parsed::Done { node: Seq::empty(), rest: here }
    } else {
        match block(here) {
            Parsed::Failed { error, rest } => Parsed::Failed { error, rest },
            Parsed::Done { node: first, rest } => {
                proof {
                    lemma_skips(ts);
                    lemma_block_consumes(here);
                }
                match document(rest) {
                    Parsed::Failed { error, rest: at } => Parsed::Failed { error, rest: at },
                    Parsed::Done { node: more, rest: after } => Parsed::Done {
                        node: seq![first] + more,
                        rest: after,
                    },
                }
            },
        }
    }
}

/// A document stops at a tail of its input: at its end where it succeeds.
pub proof fn lemma_document_reads_all(ts: Seq<TokenView>)
    ensures
        is_tail_of(document(ts).rest(), ts),
        document(ts) is Done ==> document(ts).rest().len() == 0,
    decreases ts.len(),
{
    let here = skip_blank(ts);
    lemma_skips_tail(ts);
    if here.len() > 0 {
        lemma_block_consumes(here);
        lemma_tail_of_tail(block(here).rest(), here, ts);
        if let Parsed::Done { rest, .. } = block(here) {
            lemma_document_reads_all(rest);
            lemma_tail_of_tail(document(rest).rest(), rest, ts);
        }
    }
}

} // verus!
