//! Whitespace between tokens: where it may be added without changing what
//! is parsed, and the proof that it may.
//!
//! The parser skips whitespace before almost every token it looks at. The
//! exceptions are the header of a block, `[name]`, which admits none inside
//! its brackets, and the `(` of a message, which must follow the name
//! directly. Everywhere else more `Whitespace` tokens leave the outcome of
//! every production as it was: the same tree, or the same error.
//!
//! The proof follows two inputs side by side, one with the added tokens and
//! one without, through every production. As long as the place of the
//! addition lies ahead, both inputs begin alike and every step is the same
//! on both. The place is reached only by a skip, which passes over the
//! added tokens; from there on both inputs are the same.
use vstd::prelude::*;
use crate::ast::AstView;
use crate::chars::{lemma_run_len, lemma_run_len_unique, run_len};
use crate::grammar::{
    annotation, arguments, assignment, at_punct, block, content, content_ends, definition,
    document, entries, gaps, head, key, lemma_block_consumes, lemma_consumes, lemma_skips,
    lemma_statement_consumes, line_end, message, pair, skip_blank, skip_whitespace, spaces,
    starts_with, statement, structure, target, value, Parsed,
};
use crate::parser::described;
use crate::token::{Punct, TokenView};

verus! {

/// Whether all of `ts` are `Whitespace` tokens.
pub open spec fn all_whitespace(ts: Seq<TokenView>) -> bool {
    forall|i: int| 0 <= i < ts.len() ==> (#[trigger] ts[i]) is Whitespace
}

/// Both skips pass over any `Whitespace` tokens that are put where they
/// start. Every production goes on from what a skip leaves and sees nothing
/// else, so `Whitespace` tokens added where the parser skips change neither
/// the tree that is parsed, nor the error, nor the tokens that are left.
pub proof fn law_skips_absorb_whitespace(extra: Seq<TokenView>, ts: Seq<TokenView>)
    requires
        all_whitespace(extra),
    ensures
        skip_whitespace(extra + ts) == skip_whitespace(ts),
        skip_blank(extra + ts) == skip_blank(ts),
{
    let all = extra + ts;
    let n = extra.len();
    lemma_run_len(ts, spaces());
    lemma_run_len(ts, gaps());
    let a = run_len(ts, spaces());
    let b = run_len(ts, gaps());
    assert forall|i: int| 0 <= i < n + a implies spaces()(#[trigger] all[i]) by {
        if i < n {
            assert(extra[i] is Whitespace);
        } else {
            assert(all[i] == ts[i - n]);
        }
    }
    assert forall|i: int| 0 <= i < n + b implies gaps()(#[trigger] all[i]) by {
        if i < n {
            assert(extra[i] is Whitespace);
        } else {
            assert(all[i] == ts[i - n]);
        }
    }
    if a < ts.len() {
        assert(all[(n + a) as int] == ts[a as int]);
    }
    if b < ts.len() {
        assert(all[(n + b) as int] == ts[b as int]);
    }
    lemma_run_len_unique(all, spaces(), n + a);
    lemma_run_len_unique(all, gaps(), n + b);
    assert(all.skip((n + a) as int) =~= ts.skip(a as int));
    assert(all.skip((n + b) as int) =~= ts.skip(b as int));
}

/// Whether the parser skips whitespace between the tokens `before`, of
/// which there is at least one, and the tokens `after`. It does so unless
/// `before` ends with `[`, or with `[` and a name, or with a name that
/// `(` follows.
pub open spec fn skipped_between(before: Seq<TokenView>, after: Seq<TokenView>) -> bool {
    let n = before.len();
    &&& n > 0
    &&& before[n - 1] != TokenView::Symbol(Punct::LeftBracket)
    &&& !(n >= 2 && before[n - 2] == TokenView::Symbol(Punct::LeftBracket) && before[n
        - 1] is Identifier)
    &&& !(before[n - 1] is Identifier && at_punct(after, Punct::LeftParen))
}

/// `y` is `x` with `extra` put in right before its tail `post`.
spec fn spliced(
    x: Seq<TokenView>,
    y: Seq<TokenView>,
    extra: Seq<TokenView>,
    post: Seq<TokenView>,
) -> bool {
    let n = x.len() - post.len();
    &&& n >= 0
    &&& x =~= x.take(n) + post
    &&& y =~= x.take(n) + extra + post
}

/// `x` and `y` are the same, or `y` is `x` with `extra` put in before
/// `post` at a place that lies ahead and where the parser skips.
spec fn related(
    x: Seq<TokenView>,
    y: Seq<TokenView>,
    extra: Seq<TokenView>,
    post: Seq<TokenView>,
) -> bool {
    x == y || (x.len() > post.len() && spliced(x, y, extra, post) && skipped_between(
        x.take(x.len() - post.len()),
        post,
    ))
}

/// As [`related`], but the place may also be right here, at the head.
spec fn aligned(
    x: Seq<TokenView>,
    y: Seq<TokenView>,
    extra: Seq<TokenView>,
    post: Seq<TokenView>,
) -> bool {
    related(x, y, extra, post) || (x == post && y =~= extra + post)
}

/// Two outcomes agree: the same node and aligned rests, or the same error.
spec fn agree<T>(
    p: Parsed<T>,
    q: Parsed<T>,
    extra: Seq<TokenView>,
    post: Seq<TokenView>,
) -> bool {
    match p {
        Parsed::Done { node, rest } => q matches Parsed::Done { node: other, rest: there }
            && other == node && aligned(rest, there, extra, post),
        Parsed::Failed { error, .. } => q matches Parsed::Failed { error: other, .. } && other
            == error,
    }
}

/// Related inputs begin with the same token, and stay aligned behind it.
proof fn lemma_related_step(
    x: Seq<TokenView>,
    y: Seq<TokenView>,
    extra: Seq<TokenView>,
    post: Seq<TokenView>,
)
    requires
        related(x, y, extra, post),
        x.len() > 0,
    ensures
        y.len() > 0,
        x[0] == y[0],
        aligned(x.skip(1), y.skip(1), extra, post),
{
    if x != y {
        let n = x.len() - post.len();
        let a = x.take(n);
        let b = a.skip(1);
        assert(x[0] == a[0]);
        assert(y[0] == a[0]);
        assert(x.skip(1) =~= b + post);
        assert(y.skip(1) =~= b + extra + post);
        assert(x.skip(1).take(n - 1) =~= b);
        if n > 1 {
            assert(b[b.len() - 1] == a[n - 1]);
            if n - 1 >= 2 {
                assert(b[b.len() - 2] == a[n - 2]);
            }
        }
    }
}

/// Related inputs begin alike.
proof fn lemma_related_heads(
    x: Seq<TokenView>,
    y: Seq<TokenView>,
    extra: Seq<TokenView>,
    post: Seq<TokenView>,
)
    requires
        related(x, y, extra, post),
    ensures
        head(x) == head(y),
        x.len() == 0 <==> y.len() == 0,
{
    if x != y {
        lemma_related_step(x, y, extra, post);
    }
}

/// A skip over aligned inputs leaves related inputs: it stops before the
/// place of the addition, or passes over the added tokens.
proof fn lemma_aligned_skip(
    x: Seq<TokenView>,
    y: Seq<TokenView>,
    extra: Seq<TokenView>,
    post: Seq<TokenView>,
    p: spec_fn(TokenView) -> bool,
)
    requires
        aligned(x, y, extra, post),
        all_whitespace(extra),
        p == spaces() || p == gaps(),
    ensures
        related(x.skip(run_len(x, p) as int), y.skip(run_len(y, p) as int), extra, post),
{
    if x != y {
        let n = x.len() - post.len();
        let a = x.take(n);
        let e = extra.len();
        assert(x =~= a + post);
        assert(y =~= a + extra + post);
        lemma_run_len(x, p);
        let k = run_len(x, p);
        if k < n {
            assert forall|i: int| 0 <= i < k implies p(#[trigger] y[i]) by {
                assert(y[i] == x[i]);
            }
            assert(y[k as int] == x[k as int]);
            lemma_run_len_unique(y, p, k);
            let b = a.skip(k as int);
            assert(x.skip(k as int) =~= b + post);
            assert(y.skip(k as int) =~= b + extra + post);
            assert(x.skip(k as int).take(n - k) =~= b);
            assert(b[b.len() - 1] == a[n - 1]);
            if n - k >= 2 {
                assert(b[b.len() - 2] == a[n - 2]);
            }
        } else {
            assert forall|i: int| 0 <= i < k + e implies p(#[trigger] y[i]) by {
                if i < n {
                    assert(y[i] == x[i]);
                } else if i < n + e {
                    assert(y[i] == extra[i - n]);
                    assert(extra[i - n] is Whitespace);
                } else {
                    assert(y[i] == x[i - e]);
                }
            }
            if k < x.len() {
                assert(y[(k + e) as int] == x[k as int]);
            }
            lemma_run_len_unique(y, p, k + e);
            assert(x.skip(k as int) =~= y.skip((k + e) as int));
        }
    }
}

/// [`lemma_aligned_skip`], for both skips.
proof fn lemma_aligned_skips(
    x: Seq<TokenView>,
    y: Seq<TokenView>,
    extra: Seq<TokenView>,
    post: Seq<TokenView>,
)
    requires
        aligned(x, y, extra, post),
        all_whitespace(extra),
    ensures
        related(skip_whitespace(x), skip_whitespace(y), extra, post),
        related(skip_blank(x), skip_blank(y), extra, post),
{
    lemma_aligned_skip(x, y, extra, post, spaces());
    lemma_aligned_skip(x, y, extra, post, gaps());
}

/// On related inputs each production ends alike. One lemma for each
/// production follows; they call each other as the productions do.
proof fn lemma_key(
    x: Seq<TokenView>,
    y: Seq<TokenView>,
    extra: Seq<TokenView>,
    post: Seq<TokenView>,
)
    requires
        related(x, y, extra, post),
    ensures
        agree(key(x), key(y), extra, post),
{
    if x != y {
        lemma_related_step(x, y, extra, post);
    }
}

proof fn lemma_target(
    x: Seq<TokenView>,
    y: Seq<TokenView>,
    extra: Seq<TokenView>,
    post: Seq<TokenView>,
)
    requires
        related(x, y, extra, post),
        all_whitespace(extra),
    ensures
        agree(target(x), target(y), extra, post),
{
    if x != y {
        lemma_key(x, y, extra, post);
        if key(x) is Done {
            let r1 = key(x).rest();
            let r2 = key(y).rest();
            lemma_aligned_skips(r1, r2, extra, post);
            let a1 = skip_whitespace(r1);
            let a2 = skip_whitespace(r2);
            lemma_related_heads(a1, a2, extra, post);
            if starts_with(a1, TokenView::Arrow) {
                lemma_related_step(a1, a2, extra, post);
                lemma_aligned_skips(a1.skip(1), a2.skip(1), extra, post);
                lemma_key(skip_whitespace(a1.skip(1)), skip_whitespace(a2.skip(1)), extra, post);
            }
        }
    }
}

proof fn lemma_value(
    x: Seq<TokenView>,
    y: Seq<TokenView>,
    extra: Seq<TokenView>,
    post: Seq<TokenView>,
)
    requires
        related(x, y, extra, post),
        all_whitespace(extra),
    ensures
        agree(value(x), value(y), extra, post),
    decreases x.len(), 3nat,
{
    if x != y {
        lemma_related_step(x, y, extra, post);
        match head(x) {
            Some(TokenView::Symbol(Punct::LeftBrace)) => lemma_structure(x, y, extra, post),
            Some(TokenView::Identifier(_)) => lemma_message(x, y, extra, post),
            _ => {},
        }
    }
}

proof fn lemma_structure(
    x: Seq<TokenView>,
    y: Seq<TokenView>,
    extra: Seq<TokenView>,
    post: Seq<TokenView>,
)
    requires
        related(x, y, extra, post),
        all_whitespace(extra),
    ensures
        agree(structure(x), structure(y), extra, post),
    decreases x.len(), 2nat,
{
    if x != y {
        lemma_related_step(x, y, extra, post);
        if at_punct(x, Punct::LeftBrace) {
            lemma_aligned_skips(x.skip(1), y.skip(1), extra, post);
            lemma_skips(x.skip(1));
            lemma_entries(skip_blank(x.skip(1)), skip_blank(y.skip(1)), extra, post);
        }
    }
}

proof fn lemma_entries(
    x: Seq<TokenView>,
    y: Seq<TokenView>,
    extra: Seq<TokenView>,
    post: Seq<TokenView>,
)
    requires
        related(x, y, extra, post),
        all_whitespace(extra),
    ensures
        agree(entries(x), entries(y), extra, post),
    decreases x.len(), 1nat,
{
    if x != y {
        lemma_related_step(x, y, extra, post);
        if !at_punct(x, Punct::RightBrace) {
            lemma_pair(x, y, extra, post);
            if pair(x) is Done {
                let r1 = pair(x).rest();
                let r2 = pair(y).rest();
                lemma_consumes(x);
                lemma_consumes(y);
                lemma_aligned_skips(r1, r2, extra, post);
                let a1 = skip_blank(r1);
                let a2 = skip_blank(r2);
                lemma_skips(r1);
                lemma_skips(r2);
                lemma_related_heads(a1, a2, extra, post);
                if at_punct(a1, Punct::Comma) {
                    lemma_related_step(a1, a2, extra, post);
                    lemma_aligned_skips(a1.skip(1), a2.skip(1), extra, post);
                    lemma_skips(a1.skip(1));
                    lemma_skips(a2.skip(1));
                    lemma_entries(skip_blank(a1.skip(1)), skip_blank(a2.skip(1)), extra, post);
                } else if at_punct(a1, Punct::RightBrace) {
                    lemma_related_step(a1, a2, extra, post);
                }
            }
        }
    }
}

proof fn lemma_pair(
    x: Seq<TokenView>,
    y: Seq<TokenView>,
    extra: Seq<TokenView>,
    post: Seq<TokenView>,
)
    requires
        related(x, y, extra, post),
        all_whitespace(extra),
    ensures
        agree(pair(x), pair(y), extra, post),
    decreases x.len(), 0nat,
{
    if x != y {
        lemma_key(x, y, extra, post);
        if key(x) is Done {
            let r1 = key(x).rest();
            let r2 = key(y).rest();
            lemma_aligned_skips(r1, r2, extra, post);
            let a1 = skip_blank(r1);
            let a2 = skip_blank(r2);
            lemma_skips(r1);
            lemma_related_heads(a1, a2, extra, post);
            if at_punct(a1, Punct::Colon) {
                lemma_related_step(a1, a2, extra, post);
                lemma_aligned_skips(a1.skip(1), a2.skip(1), extra, post);
                lemma_skips(a1.skip(1));
                lemma_value(skip_blank(a1.skip(1)), skip_blank(a2.skip(1)), extra, post);
            }
        }
    }
}

proof fn lemma_message(
    x: Seq<TokenView>,
    y: Seq<TokenView>,
    extra: Seq<TokenView>,
    post: Seq<TokenView>,
)
    requires
        related(x, y, extra, post),
        all_whitespace(extra),
    ensures
        agree(message(x), message(y), extra, post),
    decreases x.len(), 2nat,
{
    if x != y {
        lemma_related_step(x, y, extra, post);
        if head(x) matches Some(TokenView::Identifier(_)) {
            let r1 = x.skip(1);
            let r2 = y.skip(1);
            assert(at_punct(r1, Punct::LeftParen) == at_punct(r2, Punct::LeftParen)) by {
                if related(r1, r2, extra, post) {
                    lemma_related_heads(r1, r2, extra, post);
                } else {
                    let a = x.take(x.len() - post.len());
                    assert(a =~= seq![x[0]]);
                    if extra.len() > 0 {
                        assert(r2[0] == extra[0]);
                    } else {
                        assert(r2 =~= r1);
                    }
                }
            }
            if at_punct(r1, Punct::LeftParen) {
                lemma_related_step(r1, r2, extra, post);
                assert(r1.skip(1) =~= x.skip(2));
                assert(r2.skip(1) =~= y.skip(2));
                lemma_aligned_skips(x.skip(2), y.skip(2), extra, post);
                lemma_skips(x.skip(2));
                lemma_arguments(skip_blank(x.skip(2)), skip_blank(y.skip(2)), extra, post);
            }
        }
    }
}

proof fn lemma_arguments(
    x: Seq<TokenView>,
    y: Seq<TokenView>,
    extra: Seq<TokenView>,
    post: Seq<TokenView>,
)
    requires
        related(x, y, extra, post),
        all_whitespace(extra),
    ensures
        agree(arguments(x), arguments(y), extra, post),
    decreases x.len(), 4nat,
{
    if x != y {
        lemma_related_step(x, y, extra, post);
        if !at_punct(x, Punct::RightParen) {
            lemma_value(x, y, extra, post);
            if value(x) is Done {
                let r1 = value(x).rest();
                let r2 = value(y).rest();
                lemma_consumes(x);
                lemma_consumes(y);
                lemma_aligned_skips(r1, r2, extra, post);
                let a1 = skip_blank(r1);
                let a2 = skip_blank(r2);
                lemma_skips(r1);
                lemma_skips(r2);
                lemma_related_heads(a1, a2, extra, post);
                if at_punct(a1, Punct::Comma) {
                    lemma_related_step(a1, a2, extra, post);
                    lemma_aligned_skips(a1.skip(1), a2.skip(1), extra, post);
                    lemma_skips(a1.skip(1));
                    lemma_skips(a2.skip(1));
                    lemma_arguments(skip_blank(a1.skip(1)), skip_blank(a2.skip(1)), extra, post);
                } else if at_punct(a1, Punct::RightParen) {
                    lemma_related_step(a1, a2, extra, post);
                }
            }
        }
    }
}

proof fn lemma_definition(
    x: Seq<TokenView>,
    y: Seq<TokenView>,
    extra: Seq<TokenView>,
    post: Seq<TokenView>,
)
    requires
        related(x, y, extra, post),
        all_whitespace(extra),
    ensures
        agree(definition(x), definition(y), extra, post),
{
    if x != y {
        lemma_related_step(x, y, extra, post);
        match head(x) {
            Some(TokenView::Symbol(Punct::LeftBrace)) => lemma_structure(x, y, extra, post),
            Some(TokenView::Identifier(_)) => lemma_message(x, y, extra, post),
            _ => {},
        }
    }
}

proof fn lemma_line_end(
    p: Parsed<AstView>,
    q: Parsed<AstView>,
    extra: Seq<TokenView>,
    post: Seq<TokenView>,
)
    requires
        agree(p, q, extra, post),
        all_whitespace(extra),
    ensures
        agree(line_end(p), line_end(q), extra, post),
{
    if p is Done {
        let r1 = p.rest();
        let r2 = q.rest();
        lemma_aligned_skips(r1, r2, extra, post);
        let a1 = skip_whitespace(r1);
        let a2 = skip_whitespace(r2);
        lemma_related_heads(a1, a2, extra, post);
        if starts_with(a1, TokenView::Newline) {
            lemma_related_step(a1, a2, extra, post);
        }
    }
}

proof fn lemma_right_side(
    x: Seq<TokenView>,
    y: Seq<TokenView>,
    extra: Seq<TokenView>,
    post: Seq<TokenView>,
)
    requires
        aligned(x, y, extra, post),
        all_whitespace(extra),
    ensures
        agree(annotation(x), annotation(y), extra, post),
        agree(assignment(x), assignment(y), extra, post),
{
    lemma_aligned_skips(x, y, extra, post);
    let s1 = skip_whitespace(x);
    let s2 = skip_whitespace(y);
    lemma_definition(s1, s2, extra, post);
    lemma_value(s1, s2, extra, post);
    lemma_line_end(definition(s1), definition(s2), extra, post);
    lemma_line_end(value(s1), value(s2), extra, post);
}

proof fn lemma_statement(
    x: Seq<TokenView>,
    y: Seq<TokenView>,
    extra: Seq<TokenView>,
    post: Seq<TokenView>,
)
    requires
        related(x, y, extra, post),
        all_whitespace(extra),
    ensures
        agree(statement(x), statement(y), extra, post),
{
    if x != y {
        lemma_target(x, y, extra, post);
        if target(x) is Done {
            let r1 = target(x).rest();
            let r2 = target(y).rest();
            lemma_aligned_skips(r1, r2, extra, post);
            let a1 = skip_whitespace(r1);
            let a2 = skip_whitespace(r2);
            lemma_related_heads(a1, a2, extra, post);
            if a1.len() > 0 {
                lemma_related_step(a1, a2, extra, post);
                lemma_right_side(a1.skip(1), a2.skip(1), extra, post);
            }
        }
    }
}

proof fn lemma_content(
    x: Seq<TokenView>,
    y: Seq<TokenView>,
    extra: Seq<TokenView>,
    post: Seq<TokenView>,
)
    requires
        aligned(x, y, extra, post),
        all_whitespace(extra),
    ensures
        agree(content(x), content(y), extra, post),
    decreases x.len(),
{
    if x != y {
        lemma_aligned_skips(x, y, extra, post);
        let h1 = skip_whitespace(x);
        let h2 = skip_whitespace(y);
        lemma_related_heads(h1, h2, extra, post);
        if !content_ends(h1) {
            lemma_statement(h1, h2, extra, post);
            if statement(h1) is Done {
                lemma_skips(x);
                lemma_statement_consumes(h1);
                lemma_content(statement(h1).rest(), statement(h2).rest(), extra, post);
            }
        }
    }
}

proof fn lemma_block(
    x: Seq<TokenView>,
    y: Seq<TokenView>,
    extra: Seq<TokenView>,
    post: Seq<TokenView>,
)
    requires
        related(x, y, extra, post),
        all_whitespace(extra),
    ensures
        agree(block(x), block(y), extra, post),
{
    if x != y {
        lemma_related_step(x, y, extra, post);
        if at_punct(x, Punct::LeftBracket) {
            let n = x.len() - post.len();
            let a = x.take(n);
            assert(a[0] == x[0]);
            assert(n >= 2);
            let x1 = x.skip(1);
            let y1 = y.skip(1);
            lemma_related_step(x1, y1, extra, post);
            if head(x1) matches Some(TokenView::Identifier(_)) {
                assert(a[1] == x1[0]);
                assert(n >= 3);
                assert(x1.skip(1) =~= x.skip(2));
                assert(y1.skip(1) =~= y.skip(2));
                let x2 = x.skip(2);
                let y2 = y.skip(2);
                lemma_related_step(x2, y2, extra, post);
                if at_punct(x2, Punct::RightBracket) {
                    assert(x2.skip(1) =~= x.skip(3));
                    assert(y2.skip(1) =~= y.skip(3));
                    lemma_aligned_skips(x.skip(3), y.skip(3), extra, post);
                    let a1 = skip_whitespace(x.skip(3));
                    let a2 = skip_whitespace(y.skip(3));
                    lemma_related_heads(a1, a2, extra, post);
                    if starts_with(a1, TokenView::Newline) {
                        lemma_related_step(a1, a2, extra, post);
                        lemma_content(a1.skip(1), a2.skip(1), extra, post);
                    }
                }
            }
        }
    }
}

proof fn lemma_document(
    x: Seq<TokenView>,
    y: Seq<TokenView>,
    extra: Seq<TokenView>,
    post: Seq<TokenView>,
)
    requires
        aligned(x, y, extra, post),
        all_whitespace(extra),
    ensures
        agree(document(x), document(y), extra, post),
    decreases x.len(),
{
    if x != y {
        lemma_aligned_skips(x, y, extra, post);
        let h1 = skip_blank(x);
        let h2 = skip_blank(y);
        lemma_related_heads(h1, h2, extra, post);
        if h1.len() > 0 {
            lemma_block(h1, h2, extra, post);
            if block(h1) is Done {
                lemma_skips(x);
                lemma_block_consumes(h1);
                lemma_document(block(h1).rest(), block(h2).rest(), extra, post);
            }
        }
    }
}

/// Whether two outcomes hold the same node, or the same error.
pub open spec fn same_outcome<T>(p: Parsed<T>, q: Parsed<T>) -> bool {
    match p {
        Parsed::Done { node, .. } => q matches Parsed::Done { node: other, .. } && other == node,
        Parsed::Failed { error, .. } => q matches Parsed::Failed { error: other, .. } && other
            == error,
    }
}

/// Whitespace between tokens is insignificant wherever the parser skips it.
/// Take any tokens, cut them in two at a place where the parser skips
/// (at the very start, or where [`skipped_between`] holds), and put any
/// number of `Whitespace` tokens into the cut. Then every production that
/// is read from the start of these tokens ends as it did before: with the
/// same node, or with the same error. So the blocks of the document are
/// the same, and the document is.
pub proof fn law_whitespace_between_tokens(
    before: Seq<TokenView>,
    extra: Seq<TokenView>,
    after: Seq<TokenView>,
)
    requires
        all_whitespace(extra),
        before.len() == 0 || skipped_between(before, after),
    ensures
        same_outcome(document(before + after), document(before + extra + after)),
        described(before + extra + after) == described(before + after),
        same_outcome(content(before + after), content(before + extra + after)),
        same_outcome(annotation(before + after), annotation(before + extra + after)),
        same_outcome(assignment(before + after), assignment(before + extra + after)),
        before.len() > 0 ==> {
            &&& same_outcome(block(before + after), block(before + extra + after))
            &&& same_outcome(statement(before + after), statement(before + extra + after))
            &&& same_outcome(target(before + after), target(before + extra + after))
            &&& same_outcome(key(before + after), key(before + extra + after))
            &&& same_outcome(value(before + after), value(before + extra + after))
            &&& same_outcome(definition(before + after), definition(before + extra + after))
        },
{
    let x = before + after;
    let y = before + extra + after;
    assert(x.take(x.len() - after.len()) =~= before);
    assert(aligned(x, y, extra, after)) by {
        if before.len() == 0 {
            assert(x =~= after);
            assert(y =~= extra + after);
        }
    }
    lemma_document(x, y, extra, after);
    lemma_content(x, y, extra, after);
    lemma_right_side(x, y, extra, after);
    if before.len() > 0 {
        lemma_definition(x, y, extra, after);
        lemma_block(x, y, extra, after);
        lemma_statement(x, y, extra, after);
        lemma_target(x, y, extra, after);
        lemma_key(x, y, extra, after);
        lemma_value(x, y, extra, after);
    }
}

} // verus!
