//! Spaces and tabs in the text: where they may be added without changing
//! the document that the text describes, and the proof that they may.
//!
//! Blanks that are put into a text where one of its tokens starts leave
//! every other token as it was and make at most one more, a `Whitespace`
//! at that place. What the parser makes of such a token is the matter of
//! [`crate::whitespace`].
use vstd::prelude::*;
use crate::chars::{is_blank, lemma_run_len, lemma_run_len_unique, run_len, Run};
use crate::error::LexError;
use crate::numeral::{lemma_numeral_len, numeral_len};
use crate::parse::document_of;
use crate::scanner::{first_token, lemma_first_token_consumes, tokens, Lexed};
use crate::token::{punct_of, TokenView};
use crate::whitespace::{law_whitespace_between_tokens, skipped_between};

verus! {

/// Whether all of `s` are spaces and tabs.
pub open spec fn all_blank(s: Seq<char>) -> bool {
    forall|i: int| 0 <= i < s.len() ==> is_blank(s[i])
}

/// More blanks where blanks are make no new token: a run of spaces and
/// tabs is one `Whitespace` however long it is.
pub proof fn law_longer_blank_run(extra: Seq<char>, s: Seq<char>)
    requires
        all_blank(extra),
        s.len() > 0,
        is_blank(s[0]),
    ensures
        tokens(extra + s) == tokens(s),
{
    if extra.len() > 0 {
        let all = extra + s;
        let p = Run::Blank.pred();
        let n = extra.len();
        lemma_run_len(s, p);
        let a = run_len(s, p);
        assert forall|i: int| 0 <= i < n + a implies p(#[trigger] all[i]) by {
            if i < n {
                assert(is_blank(extra[i]));
            } else {
                assert(all[i] == s[i - n]);
            }
        }
        if a < s.len() {
            assert(all[(n + a) as int] == s[a as int]);
        }
        lemma_run_len_unique(all, p, n + a);
        assert(all.skip((n + a) as int) =~= s.skip(a as int));
        assert(is_blank(all[0])) by {
            assert(all[0] == extra[0]);
        }
    } else {
        assert(extra + s =~= s);
    }
}

/// Blanks where there are none make one `Whitespace` token, and leave the
/// tokens after it as they were.
pub proof fn law_new_blank_run(extra: Seq<char>, s: Seq<char>)
    requires
        all_blank(extra),
        extra.len() > 0,
        s.len() > 0 ==> !is_blank(s[0]),
    ensures
        tokens(extra + s) == match tokens(s) {
            Ok(more) => Ok::<Seq<TokenView>, LexError>(seq![TokenView::Whitespace] + more),
            Err(error) => Err(error),
        },
{
    let all = extra + s;
    let p = Run::Blank.pred();
    let n = extra.len();
    assert forall|i: int| 0 <= i < n implies p(#[trigger] all[i]) by {
        assert(is_blank(extra[i]));
    }
    if s.len() > 0 {
        assert(all[n as int] == s[0]);
    }
    lemma_run_len_unique(all, p, n);
    assert(all.skip(n as int) =~= s);
    assert(is_blank(all[0])) by {
        assert(all[0] == extra[0]);
    }
}

/// `s` with the characters `b` put in at the offset `k`.
pub open spec fn with_blanks(s: Seq<char>, k: int, b: Seq<char>) -> Seq<char> {
    s.take(k) + b + s.skip(k)
}

/// Whether a token of `s` starts at the offset `k`, or the tokens of `s`
/// end there: whether the scanner, on its way through `s`, comes to stand
/// at `k`.
pub open spec fn token_starts_at(s: Seq<char>, k: int) -> bool
    decreases s.len(),
{
    k == 0 || (0 < k <= s.len() && match first_token(s) {
        Lexed::Token { rest, .. } => {
            proof {
                lemma_first_token_consumes(s);
            }
            s.len() - rest.len() <= k && token_starts_at(rest, k - (s.len() - rest.len()))
        },
        Lexed::Error { .. } => false,
    })
}

/// The tokens of `s` that end at or before the offset `k`.
pub open spec fn tokens_before(s: Seq<char>, k: int) -> Seq<TokenView>
    decreases s.len(),
{
    if 0 < k <= s.len() {
        match first_token(s) {
            Lexed::Token { token, rest } => {
                proof {
                    lemma_first_token_consumes(s);
                }
                if s.len() - rest.len() <= k {
                    seq![token] + tokens_before(rest, k - (s.len() - rest.len()))
                } else {
                    Seq::empty()
                }
            },
            Lexed::Error { .. } => Seq::empty(),
        }
    } else {
        Seq::empty()
    }
}

/// `done`, and then what `more` holds.
pub open spec fn and_then(
    done: Seq<TokenView>,
    more: Result<Seq<TokenView>, LexError>,
) -> Result<Seq<TokenView>, LexError> {
    match more {
        Ok(ts) => Ok(done + ts),
        Err(error) => Err(error),
    }
}

/// The tokens of a text are the tokens before a place where a token
/// starts, and then the tokens of the rest.
pub proof fn lemma_tokens_split(s: Seq<char>, k: int)
    requires
        token_starts_at(s, k),
    ensures
        0 <= k <= s.len(),
        tokens(s) == and_then(tokens_before(s, k), tokens(s.skip(k))),
    decreases s.len(),
{
    if k == 0 {
        assert(s.skip(0) =~= s);
        if let Ok(ts) = tokens(s) {
            assert(Seq::<TokenView>::empty() + ts =~= ts);
        }
    } else {
        lemma_first_token_consumes(s);
        if let Lexed::Token { token, rest } = first_token(s) {
            let n = s.len() - rest.len();
            lemma_tokens_split(rest, k - n);
            assert(rest.skip(k - n) =~= s.skip(k));
            if let Ok(ts) = tokens(s.skip(k)) {
                let before = tokens_before(rest, k - n);
                assert(seq![token] + (before + ts) =~= (seq![token] + before) + ts);
            }
        }
    }
}

proof fn lemma_run_before(s: Seq<char>, p: spec_fn(char) -> bool, k: int, b: Seq<char>)
    requires
        0 <= k <= s.len(),
        run_len(s, p) < k || (run_len(s, p) == k && b.len() > 0 && !p(b[0])),
    ensures
        run_len(with_blanks(s, k, b), p) == run_len(s, p),
{
    lemma_run_len(s, p);
    let m = run_len(s, p);
    let t = with_blanks(s, k, b);
    assert forall|i: int| 0 <= i < m implies p(#[trigger] t[i]) by {
        assert(t[i] == s[i]);
    }
    if m < k {
        assert(t[m as int] == s[m as int]);
    } else {
        assert(t[m as int] == b[0]);
    }
    lemma_run_len_unique(t, p, m);
}

proof fn lemma_run_through(s: Seq<char>, p: spec_fn(char) -> bool, k: int, b: Seq<char>)
    requires
        0 <= k <= run_len(s, p),
        forall|i: int| 0 <= i < b.len() ==> p(#[trigger] b[i]),
    ensures
        run_len(with_blanks(s, k, b), p) == run_len(s, p) + b.len(),
{
    lemma_run_len(s, p);
    let m = run_len(s, p);
    let t = with_blanks(s, k, b);
    assert forall|i: int| 0 <= i < m + b.len() implies p(#[trigger] t[i]) by {
        if i < k {
            assert(t[i] == s[i]);
        } else if i < k + b.len() {
            assert(t[i] == b[i - k]);
        } else {
            assert(t[i] == s[i - b.len()]);
        }
    }
    if m < s.len() {
        assert(t[(m + b.len()) as int] == s[m as int]);
    }
    lemma_run_len_unique(t, p, (m + b.len()) as nat);
}

proof fn lemma_with_blanks_skip(s: Seq<char>, k: int, b: Seq<char>, n: int)
    requires
        0 <= n <= k <= s.len(),
    ensures
        with_blanks(s, k, b).skip(n) == with_blanks(s.skip(n), k - n, b),
        with_blanks(s, k, b).take(n) == s.take(n),
{
    assert(with_blanks(s, k, b).skip(n) =~= with_blanks(s.skip(n), k - n, b));
    assert(with_blanks(s, k, b).take(n) =~= s.take(n));
}

/// Blanks that are put in behind the first token, and not directly behind
/// it where it is a run of blanks or a comment, leave it as it is.
proof fn lemma_first_token_before(s: Seq<char>, k: int, b: Seq<char>)
    requires
        s.len() > 0,
        all_blank(b),
        b.len() > 0,
        first_token(s) is Token,
        s.len() - first_token(s)->rest.len() <= k <= s.len(),
        s.len() - first_token(s)->rest.len() == k ==> !is_blank(s[0]) && s[0] != ';',
    ensures
        first_token(with_blanks(s, k, b)) == (Lexed::Token {
            token: first_token(s)->token,
            rest: with_blanks(
                first_token(s)->rest,
                k - (s.len() - first_token(s)->rest.len()),
                b,
            ),
        }),
{
    let t = with_blanks(s, k, b);
    let rest = first_token(s)->rest;
    let n = s.len() - rest.len();
    lemma_first_token_consumes(s);
    assert(is_blank(b[0]));
    let c = s[0];
    assert(t[0] == c);
    if is_blank(c) {
        let p = Run::Blank.pred();
        lemma_run_len(s, p);
        lemma_run_before(s, p, k, b);
        lemma_with_blanks_skip(s, k, b, n);
    } else if c == '"' {
        let p = Run::Quoted.pred();
        let body = s.skip(1);
        let m = run_len(body, p);
        lemma_run_len(body, p);
        lemma_with_blanks_skip(s, k, b, 1);
        lemma_run_before(body, p, k - 1, b);
        lemma_with_blanks_skip(body, k - 1, b, m as int);
        lemma_with_blanks_skip(body, k - 1, b, m as int + 1);
        assert(body.skip(m as int + 1) == rest);
    } else if c == ';' {
        let p = Run::Line.pred();
        lemma_run_len(s, p);
        lemma_run_before(s, p, k, b);
        lemma_with_blanks_skip(s, k, b, n);
    } else if punct_of(c) is Some {
        lemma_with_blanks_skip(s, k, b, 1);
    } else if c == '-' {
        if s.len() > 1 && s[1] == '>' {
            assert(t[1] == s[1]);
            lemma_with_blanks_skip(s, k, b, 2);
        } else {
            if t.len() > 1 {
                if k > 1 {
                    assert(t[1] == s[1]);
                } else {
                    assert(t[1] == b[0]);
                }
            }
            lemma_with_blanks_skip(s, k, b, 1);
        }
    } else if c == '\n' {
        lemma_with_blanks_skip(s, k, b, 1);
    } else if Run::Ident.admits(c) {
        let p = Run::Ident.pred();
        lemma_run_len(s, p);
        lemma_run_before(s, p, k, b);
        lemma_with_blanks_skip(s, k, b, n);
    } else if Run::Digit.admits(c) {
        let p = Run::Digit.pred();
        lemma_numeral_len(s);
        lemma_run_len(s, p);
        let whole = run_len(s, p);
        lemma_run_before(s, p, k, b);
        if whole < s.len() && s[whole as int] == '.' {
            let tail = s.skip(whole as int + 1);
            lemma_run_len(tail, p);
            assert(t[whole as int] == s[whole as int]);
            lemma_with_blanks_skip(s, k, b, whole as int + 1);
            lemma_run_before(tail, p, k - whole - 1, b);
        } else {
            if whole < k {
                if whole < s.len() {
                    assert(t[whole as int] == s[whole as int]);
                }
            } else {
                assert(t[whole as int] == b[0]);
            }
        }
        assert(numeral_len(t) == n);
        lemma_with_blanks_skip(s, k, b, n);
    }
}

/// Blanks that are put into a run of blanks or a comment, or directly
/// behind one, are taken into it.
proof fn lemma_first_token_through(s: Seq<char>, k: int, b: Seq<char>)
    requires
        s.len() > 0,
        all_blank(b),
        is_blank(s[0]) || s[0] == ';',
        first_token(s) is Token,
        0 < k <= s.len() - first_token(s)->rest.len(),
    ensures
        first_token(with_blanks(s, k, b)) == first_token(s),
{
    let rest = first_token(s)->rest;
    let n = s.len() - rest.len();
    let t = with_blanks(s, k, b);
    let p = if is_blank(s[0]) {
        Run::Blank.pred()
    } else {
        Run::Line.pred()
    };
    lemma_run_len(s, p);
    assert(t[0] == s[0]);
    assert forall|i: int| 0 <= i < b.len() implies p(#[trigger] b[i]) by {
        assert(is_blank(b[i]));
    }
    lemma_run_through(s, p, k, b);
    assert(t.skip(n + b.len()) =~= rest);
}

/// Blanks that are put into a text where a token starts make at most one
/// token more, a `Whitespace` at that place; the other tokens stay.
pub proof fn lemma_tokens_with_blanks(s: Seq<char>, k: int, b: Seq<char>)
    requires
        token_starts_at(s, k),
        all_blank(b),
    ensures
        tokens(with_blanks(s, k, b)) == tokens(s) || tokens(with_blanks(s, k, b)) == and_then(
            tokens_before(s, k) + seq![TokenView::Whitespace],
            tokens(s.skip(k)),
        ),
    decreases s.len(),
{
    let t = with_blanks(s, k, b);
    if b.len() == 0 {
        assert(t =~= s);
    } else if k == 0 {
        assert(t =~= b + s);
        assert(s.skip(0) =~= s);
        if s.len() > 0 && is_blank(s[0]) {
            law_longer_blank_run(b, s);
        } else {
            law_new_blank_run(b, s);
            if let Ok(ts) = tokens(s) {
                assert(seq![TokenView::Whitespace] + ts =~= (Seq::<TokenView>::empty() + seq![
                    TokenView::Whitespace,
                ]) + ts);
            }
        }
    } else {
        lemma_first_token_consumes(s);
        let token = first_token(s)->token;
        let rest = first_token(s)->rest;
        let n = s.len() - rest.len();
        if n == k && (is_blank(s[0]) || s[0] == ';') {
            lemma_first_token_through(s, k, b);
        } else {
            lemma_first_token_before(s, k, b);
            lemma_tokens_with_blanks(rest, k - n, b);
            assert(rest.skip(k - n) =~= s.skip(k));
            if let Ok(ts) = tokens(s.skip(k)) {
                let before = tokens_before(rest, k - n);
                let ws = seq![TokenView::Whitespace];
                assert(seq![token] + ((before + ws) + ts) =~= ((seq![token] + before) + ws) + ts);
            }
        }
    }
}

/// Blanks between tokens are insignificant wherever the parser skips
/// whitespace. Take any text, cut it in two where one of its tokens starts,
/// and put spaces and tabs into the cut. Where the cut lies at the very
/// start, or between tokens between which the parser skips, the text
/// describes the same document as before, or fails with the same error.
pub proof fn law_blanks_between_tokens(x: Seq<char>, b: Seq<char>, y: Seq<char>)
    requires
        all_blank(b),
        token_starts_at(x + y, x.len() as int),
        tokens(y) is Ok ==> tokens_before(x + y, x.len() as int).len() == 0 || skipped_between(
            tokens_before(x + y, x.len() as int),
            tokens(y)->Ok_0,
        ),
    ensures
        document_of(x + b + y) == document_of(x + y),
{
    let s = x + y;
    let k = x.len() as int;
    assert(s.take(k) =~= x);
    assert(s.skip(k) =~= y);
    assert(with_blanks(s, k, b) =~= x + b + y);
    lemma_tokens_split(s, k);
    lemma_tokens_with_blanks(s, k, b);
    if let Ok(after) = tokens(y) {
        let before = tokens_before(s, k);
        let ws = seq![TokenView::Whitespace];
        if tokens(x + b + y) != tokens(s) {
            assert((before + ws) + after =~= before + ws + after);
            law_whitespace_between_tokens(before, ws, after);
        }
    }
}

/// Whether the offset `k` lies in a run of blanks or in a comment of `s`,
/// or directly behind one.
pub open spec fn in_whitespace(s: Seq<char>, k: int) -> bool
    decreases s.len(),
{
    0 < k <= s.len() && match first_token(s) {
        Lexed::Token { rest, .. } => {
            proof {
                lemma_first_token_consumes(s);
            }
            if k <= s.len() - rest.len() {
                is_blank(s[0]) || s[0] == ';'
            } else {
                in_whitespace(rest, k - (s.len() - rest.len()))
            }
        },
        Lexed::Error { .. } => false,
    }
}

proof fn lemma_tokens_within_whitespace(s: Seq<char>, k: int, b: Seq<char>)
    requires
        in_whitespace(s, k),
        all_blank(b),
    ensures
        tokens(with_blanks(s, k, b)) == tokens(s),
    decreases s.len(),
{
    if b.len() == 0 {
        assert(with_blanks(s, k, b) =~= s);
    } else {
        lemma_first_token_consumes(s);
        let rest = first_token(s)->rest;
        let n = s.len() - rest.len();
        if k <= n {
            lemma_first_token_through(s, k, b);
        } else {
            lemma_first_token_before(s, k, b);
            lemma_tokens_within_whitespace(rest, k - n, b);
        }
    }
}

/// Blanks in whitespace are insignificant. Spaces and tabs that are put
/// into a run of blanks or into a comment, or directly behind one, change
/// no token, and so nothing that is made of the tokens.
pub proof fn law_blanks_within_whitespace(x: Seq<char>, b: Seq<char>, y: Seq<char>)
    requires
        all_blank(b),
        in_whitespace(x + y, x.len() as int),
    ensures
        tokens(x + b + y) == tokens(x + y),
        document_of(x + b + y) == document_of(x + y),
{
    let s = x + y;
    let k = x.len() as int;
    assert(s.take(k) =~= x);
    assert(s.skip(k) =~= y);
    assert(with_blanks(s, k, b) =~= x + b + y);
    lemma_tokens_within_whitespace(s, k, b);
}

} // verus!
