//! Laws of the front end: what holds of every input, proved from the
//! definitions of the scanner, the grammar and the reduction.
use vstd::prelude::*;
use crate::ast::AstView;
use crate::chars::{lemma_run_len_unique, Run};
use crate::error::LexError;
use crate::grammar::{
    block, document, key, lemma_block_consumes, lemma_skips, skip_blank, skip_whitespace, spaces,
    starts_with, target, value, Parsed,
};
use crate::numeral::{is_numeral, lemma_numeral_len, lemma_numeral_len_of_numeral};
use crate::scanner::{first_token, lemma_first_token_consumes, tokens, Lexed};
use crate::token::TokenView;
use crate::value::{
    assembled, distinct_names, entered, has_name, lemma_entered, lemma_entered_distinct,
    lemma_lookup_some, lookup, reduced, reduced_all, ValueView,
};
use crate::whitespace::{all_whitespace, law_skips_absorb_whitespace};

verus! {

/// A numeral is read back as itself. The text of a decimal numeral is one
/// token, the number with that very text; as a value on its own it parses to
/// the number literal with that text, and reduces to the number value with
/// that text. So the number that the text denotes is the number that comes
/// out.
pub proof fn law_numeral_round_trip(text: Seq<char>)
    requires
        is_numeral(text),
    ensures
        tokens(text) == Ok::<Seq<TokenView>, LexError>(seq![TokenView::Number(text)]),
        value(seq![TokenView::Number(text)]) == (Parsed::Done {
            node: AstView::Number(text),
            rest: Seq::<TokenView>::empty(),
        }),
        reduced(AstView::Number(text)) == ValueView::Number(text),
{
    lemma_numeral_len_of_numeral(text);
    let rest = text.skip(text.len() as int);
    assert(text.take(text.len() as int) =~= text);
    assert(first_token(text) == Lexed::Token { token: TokenView::Number(text), rest });
    assert(tokens(rest) == Ok::<Seq<TokenView>, LexError>(Seq::empty()));
    assert(seq![TokenView::Number(text)] + Seq::<TokenView>::empty() =~= seq![
        TokenView::Number(text),
    ]);
    assert(seq![TokenView::Number(text)].skip(1) =~= Seq::<TokenView>::empty());
}

/// A quoted text is read back as itself. A text without `"`, put between
/// two `"`, is one token, the string with that very text; as a value on its
/// own it parses to the string literal with that text, and reduces to the
/// string value with that text. Nothing in it is an escape.
pub proof fn law_string_round_trip(text: Seq<char>)
    requires
        forall|i: int| 0 <= i < text.len() ==> text[i] != '"',
    ensures
        tokens(seq!['"'] + text + seq!['"']) == Ok::<Seq<TokenView>, LexError>(
            seq![TokenView::String(text)],
        ),
        value(seq![TokenView::String(text)]) == (Parsed::Done {
            node: AstView::String(text),
            rest: Seq::<TokenView>::empty(),
        }),
        reduced(AstView::String(text)) == ValueView::String(text),
{
    let source = seq!['"'] + text + seq!['"'];
    let body = source.skip(1);
    assert(body =~= text + seq!['"']);
    let p = Run::Quoted.pred();
    assert forall|i: int| 0 <= i < text.len() implies p(#[trigger] body[i]) by {
        assert(body[i] == text[i]);
    }
    lemma_run_len_unique(body, p, text.len());
    assert(body.take(text.len() as int) =~= text);
    let rest = body.skip(text.len() as int + 1);
    assert(first_token(source) == Lexed::Token { token: TokenView::String(text), rest });
    assert(tokens(rest) == Ok::<Seq<TokenView>, LexError>(Seq::empty()));
    assert(seq![TokenView::String(text)] + Seq::<TokenView>::empty() =~= seq![
        TokenView::String(text),
    ]);
    assert(seq![TokenView::String(text)].skip(1) =~= Seq::<TokenView>::empty());
}

/// The scanner reads numbers as they stand: it never fails with
/// `InvalidNumber`, and the text of every number token is a numeral.
pub proof fn law_scanned_numbers_are_numerals(s: Seq<char>)
    ensures
        tokens(s) != Err::<Seq<TokenView>, LexError>(LexError::InvalidNumber),
        tokens(s) matches Ok(ts) ==> forall|i: int|
            0 <= i < ts.len() ==> ((#[trigger] ts[i]) matches TokenView::Number(text)
                ==> is_numeral(text)),
    decreases s.len(),
{
    if s.len() > 0 {
        lemma_first_token_consumes(s);
        if let Lexed::Token { token, rest } = first_token(s) {
            law_scanned_numbers_are_numerals(rest);
            if token is Number {
                lemma_numeral_len(s);
            }
            if let Ok(more) = tokens(rest) {
                let ts = seq![token] + more;
                assert forall|i: int| 0 <= i < ts.len() implies ((#[trigger] ts[i]) matches TokenView::Number(
                    text,
                ) ==> is_numeral(text)) by {
                    if i > 0 {
                        assert(ts[i] == more[i - 1]);
                    }
                }
            }
        }
    }
}

/// Where no arrow follows a key, the target is the key alone and ends where
/// the key ends: the whitespace that was looked past is given back.
pub proof fn law_target_without_arrow(ts: Seq<TokenView>)
    requires
        key(ts) is Done,
        !starts_with(skip_whitespace(key(ts).rest()), TokenView::Arrow),
    ensures
        target(ts) == key(ts),
        target(ts).rest() == ts.skip(1),
{
}

/// An identifier alone is a leaf.
pub proof fn law_identifier_is_leaf(name: Seq<char>, rest: Seq<TokenView>)
    requires
        !starts_with(skip_whitespace(rest), TokenView::Arrow),
    ensures
        target(seq![TokenView::Identifier(name)] + rest) == (Parsed::Done {
            node: AstView::Leaf { name },
            rest,
        }),
{
    let ts = seq![TokenView::Identifier(name)] + rest;
    assert(ts.skip(1) =~= rest);
}

/// Two identifiers with an arrow between them are an edge, whatever
/// whitespace stands around the arrow.
pub proof fn law_arrow_makes_edge(
    from: Seq<char>,
    before: Seq<TokenView>,
    after: Seq<TokenView>,
    to: Seq<char>,
    rest: Seq<TokenView>,
)
    requires
        all_whitespace(before),
        all_whitespace(after),
    ensures
        target(
            seq![TokenView::Identifier(from)] + before + seq![TokenView::Arrow] + after + seq![
                TokenView::Identifier(to),
            ] + rest,
        ) == (Parsed::Done {
            node: AstView::Edge {
                from: Box::new(AstView::Leaf { name: from }),
                to: Box::new(AstView::Leaf { name: to }),
            },
            rest,
        }),
{
    let tail = seq![TokenView::Identifier(to)] + rest;
    let middle = seq![TokenView::Arrow] + after + tail;
    let ts = seq![TokenView::Identifier(from)] + before + seq![TokenView::Arrow] + after + seq![
        TokenView::Identifier(to),
    ] + rest;
    assert(ts.skip(1) =~= before + middle);
    law_skips_absorb_whitespace(before, middle);
    lemma_run_len_unique(middle, spaces(), 0);
    assert(middle.skip(0) =~= middle);
    assert(middle.skip(1) =~= after + tail);
    law_skips_absorb_whitespace(after, tail);
    lemma_run_len_unique(tail, spaces(), 0);
    assert(tail.skip(0) =~= tail);
    assert(tail.skip(1) =~= rest);
}

/// Whether all of `nodes` are blocks.
pub open spec fn all_blocks(nodes: Seq<AstView>) -> bool {
    forall|i: int| 0 <= i < nodes.len() ==> nodes[i] is Block
}

/// The name of a block.
pub open spec fn block_name(node: AstView) -> Seq<char> {
    node->Block_name
}

/// What is entered for a block: the vector of what its statements say.
pub open spec fn block_value(node: AstView) -> ValueView {
    ValueView::Vec(reduced_all(node->Block_content))
}

/// What a document parses to are blocks.
pub proof fn law_document_of_blocks(ts: Seq<TokenView>)
    requires
        document(ts) is Done,
    ensures
        all_blocks(document(ts)->Done_node),
    decreases ts.len(),
{
    let here = skip_blank(ts);
    if here.len() > 0 {
        lemma_skips(ts);
        lemma_block_consumes(here);
        let rest = block(here).rest();
        law_document_of_blocks(rest);
        let first = block(here)->Done_node;
        let more = document(rest)->Done_node;
        let all = seq![first] + more;
        assert forall|i: int| 0 <= i < all.len() implies all[i] is Block by {
            if i > 0 {
                assert(all[i] == more[i - 1]);
            }
        }
    }
}

/// Blocks always make a document, whose names are distinct: it is the
/// document of all blocks but the last, with the last block entered.
pub proof fn law_blocks_assemble(blocks: Seq<AstView>)
    requires
        all_blocks(blocks),
    ensures
        assembled(reduced_all(blocks)) is Ok,
        distinct_names(assembled(reduced_all(blocks))->Ok_0),
        blocks.len() > 0 ==> assembled(reduced_all(blocks))->Ok_0 == entered(
            assembled(reduced_all(blocks.drop_last()))->Ok_0,
            block_name(blocks.last()),
            block_value(blocks.last()),
        ),
    decreases blocks.len(),
{
    if blocks.len() > 0 {
        let values = reduced_all(blocks);
        let front = blocks.drop_last();
        let last = blocks.last();
        assert(values.drop_last() =~= reduced_all(front));
        law_blocks_assemble(front);
        assert(last is Block);
        assert(values.last() == reduced(last));
        lemma_entered_distinct(
            assembled(reduced_all(front))->Ok_0,
            block_name(last),
            block_value(last),
        );
    }
}

/// The names of the document that blocks make are the names of the blocks.
pub proof fn law_document_names(blocks: Seq<AstView>, name: Seq<char>)
    requires
        all_blocks(blocks),
    ensures
        has_name(assembled(reduced_all(blocks))->Ok_0, name) <==> exists|i: int|
            0 <= i < blocks.len() && #[trigger] block_name(blocks[i]) == name,
    decreases blocks.len(),
{
    law_blocks_assemble(blocks);
    if blocks.len() == 0 {
    } else {
        let front = blocks.drop_last();
        let last = blocks.last();
        let before = assembled(reduced_all(front))->Ok_0;
        law_document_names(front, name);
        lemma_entered(before, block_name(last), block_value(last), name);
        if has_name(before, name) {
            let i = choose|i: int| 0 <= i < front.len() && #[trigger] block_name(front[i]) == name;
            assert(block_name(blocks[i]) == name);
        }
        if block_name(last) == name {
            assert(block_name(blocks[blocks.len() - 1]) == name);
        }
        if exists|i: int| 0 <= i < blocks.len() && #[trigger] block_name(blocks[i]) == name {
            let i = choose|i: int| 0 <= i < blocks.len() && #[trigger] block_name(blocks[i]) == name;
            if i < front.len() {
                assert(block_name(front[i]) == name);
            }
        }
    }
}

/// Of the blocks that share a name the first wins: under the name of the
/// block `i`, before which no block has that name, the document holds what
/// the block `i` says, whatever blocks of the same name come after it.
pub proof fn law_first_block_wins(blocks: Seq<AstView>, i: int)
    requires
        all_blocks(blocks),
        0 <= i < blocks.len(),
        forall|j: int| 0 <= j < i ==> block_name(#[trigger] blocks[j]) != block_name(blocks[i]),
    ensures
        assembled(reduced_all(blocks)) is Ok,
        lookup(assembled(reduced_all(blocks))->Ok_0, block_name(blocks[i])) == Some(
            block_value(blocks[i]),
        ),
    decreases blocks.len(),
{
    law_blocks_assemble(blocks);
    let front = blocks.drop_last();
    let last = blocks.last();
    let before = assembled(reduced_all(front))->Ok_0;
    let name = block_name(blocks[i]);
    lemma_entered(before, block_name(last), block_value(last), name);
    lemma_lookup_some(before, name);
    if i < front.len() {
        assert(front[i] == blocks[i]);
        assert forall|j: int| 0 <= j < i implies block_name(#[trigger] front[j]) != block_name(
            front[i],
        ) by {
            assert(front[j] == blocks[j]);
        }
        law_first_block_wins(front, i);
    } else {
        law_document_names(front, name);
        if has_name(before, name) {
            let j = choose|j: int| 0 <= j < front.len() && #[trigger] block_name(front[j]) == name;
            assert(front[j] == blocks[j]);
        }
    }
}

/// Reading a document never ends in a conversion error: what the parser
/// hands to the assembly are blocks.
pub proof fn law_parsed_blocks_assemble(ts: Seq<TokenView>)
    requires
        document(ts) is Done,
    ensures
        assembled(reduced_all(document(ts)->Done_node)) is Ok,
{
    law_document_of_blocks(ts);
    law_blocks_assemble(document(ts)->Done_node);
}

} // verus!
