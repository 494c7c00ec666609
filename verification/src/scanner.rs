//! The scanner: from characters to tokens, in one pass from left to right.
//!
//! What the scanner does is fixed by two functions of the input that is
//! still unread: [`step`] for one token and [`tokens`] for all of them.
use vstd::prelude::*;
use crate::chars::{chars_of, is_blank, is_digit, is_ident_char, lemma_run_len, run_end, run_len, text_of, Run};
use crate::error::LexError;
use crate::numeral::{lemma_numeral_len, numeral_end, numeral_len, Numeral};
use crate::token::{punct, punct_of, views, Punct, Token, TokenView};

verus! {

/// What the scanner makes of the head of its input.
pub enum Lexed {
    /// A token, and the input that follows it.
    Token { token: TokenView, rest: Seq<char> },
    /// No token starts here.
    Error { error: LexError },
}

/// The first token of `s`, which is not empty. The rules are tried in this
/// order, and the first that fits decides:
///
/// 1. a space or tab starts a run of them, which is one `Whitespace`;
/// 2. `"` starts a string, which runs to the next `"`; what stands between
///    the two is the string, with no escapes; the input may not end first;
/// 3. `;` starts a comment, which runs up to the end of the line and counts
///    as one `Whitespace`; the newline is not part of it;
/// 4. `,` `.` `(` `)` `[` `]` `{` `}` `:` `=` `>` are tokens by themselves;
/// 5. `-` is an `Arrow` together with a `>` that follows it directly, and
///    a token by itself otherwise;
/// 6. a newline is a `Newline`;
/// 7. a letter or `_` starts an identifier, the longest run of them;
/// 8. a digit starts a number: digits, then at most one point and the
///    digits after it;
/// 9. nothing else starts a token.
pub open spec fn first_token(s: Seq<char>) -> Lexed
    recommends
        s.len() > 0,
{
    let c = s[0];
    if is_blank(c) {
        Lexed::Token {
            token: TokenView::Whitespace,
            rest: s.skip(run_len(s, Run::Blank.pred()) as int),
        }
    } else if c == '"' {
        let body = s.skip(1);
        let n = run_len(body, Run::Quoted.pred());
        if n < body.len() {
            Lexed::Token { token: TokenView::String(body.take(n as int)), rest: body.skip(n as int + 1) }
        } else {
            Lexed::Error { error: LexError::UnterminatedString }
        }
    } else if c == ';' {
        Lexed::Token {
            token: TokenView::Whitespace,
            rest: s.skip(run_len(s, Run::Line.pred()) as int),
        }
    } else if punct_of(c) is Some {
        Lexed::Token { token: TokenView::Symbol(punct_of(c)->0), rest: s.skip(1) }
    } else if c == '-' {
        if s.len() > 1 && s[1] == '>' {
            Lexed::Token { token: TokenView::Arrow, rest: s.skip(2) }
        } else {
            Lexed::Token { token: TokenView::Symbol(Punct::Minus), rest: s.skip(1) }
        }
    } else if c == '\n' {
        Lexed::Token { token: TokenView::Newline, rest: s.skip(1) }
    } else if is_ident_char(c) {
        let n = run_len(s, Run::Ident.pred());
        Lexed::Token { token: TokenView::Identifier(s.take(n as int)), rest: s.skip(n as int) }
    } else if is_digit(c) {
        let n = numeral_len(s);
        Lexed::Token { token: TokenView::Number(s.take(n as int)), rest: s.skip(n as int) }
    } else {
        Lexed::Error { error: LexError::UnexpectedCharacter(c) }
    }
}

/// One step of the scanner: nothing at the end of the input, and
/// [`first_token`] before it.
pub open spec fn step(s: Seq<char>) -> Option<Lexed> {
    if s.len() == 0 {
        None
    } else {
        Some(first_token(s))
    }
}

/// Every token takes at least one character, and what is left is the end of
/// what was there.
pub proof fn lemma_first_token_consumes(s: Seq<char>)
    requires
        s.len() > 0,
    ensures
        first_token(s) matches Lexed::Token { rest, .. } ==> rest.len() < s.len() && rest == s.skip(
            s.len() - rest.len(),
        ),
{
    lemma_run_len(s, Run::Blank.pred());
    lemma_run_len(s, Run::Line.pred());
    lemma_run_len(s, Run::Ident.pred());
    lemma_run_len(s.skip(1), Run::Quoted.pred());
    let c = s[0];
    if is_blank(c) {
        assert(Run::Blank.pred()(s[0]));
    } else if c == '"' {
        let body = s.skip(1);
        let n = run_len(body, Run::Quoted.pred());
        if n < body.len() {
            assert(body.skip(n as int + 1) =~= s.skip(n as int + 2));
        }
    } else if c == ';' {
        assert(Run::Line.pred()(s[0]));
    } else if punct_of(c) is Some {
    } else if c == '-' {
    } else if c == '\n' {
    } else if is_ident_char(c) {
        assert(Run::Ident.pred()(s[0]));
    } else if is_digit(c) {
        lemma_numeral_len(s);
    }
}

/// All the tokens of `s`, or the first error that the scanner meets.
pub open spec fn tokens(s: Seq<char>) -> Result<Seq<TokenView>, LexError>
    decreases s.len(),
{
    match step(s) {
        None => Ok(Seq::empty()),
        Some(Lexed::Error { error }) => Err(error),
        Some(Lexed::Token { token, rest }) => {
            proof {
                lemma_first_token_consumes(s);
            }
            match tokens(rest) {
                Ok(more) => Ok(seq![token] + more),
                Err(error) => Err(error),
            }
        },
    }
}

/// A scanner over a text. It hands out the tokens one by one, on demand,
/// and cannot be rewound.
pub struct Scanner {
    chars: Vec<char>,
    pos: usize,
}

impl Scanner {
    #[verifier::type_invariant]
    spec fn well_formed(&self) -> bool {
        self.pos <= self.chars.len()
    }

    /// The input that has not been read yet.
    pub closed spec fn remaining(&self) -> Seq<char> {
        self.chars@.skip(self.pos as int)
    }

    /// A scanner at the start of `source`.
    pub fn new(source: String) -> (scanner: Scanner)
        ensures
            scanner.remaining() == source@,
    {
        let chars = chars_of(source.as_str());
        assert(chars@.skip(0) =~= chars@);
        Scanner { chars, pos: 0 }
    }

    /// Whether the whole input has been read.
    pub fn is_done(&self) -> (done: bool)
        ensures
            done == (self.remaining().len() == 0),
    {
        proof {
            use_type_invariant(self);
        }
        self.pos == self.chars.len()
    }

    /// Reads one token: `None` at the end of the input, else the token,
    /// or the reason why none starts here. After an error the scanner is
    /// at the end of its input, so that the error is the last thing it says.
    pub fn next_token(&mut self) -> (r: Option<Result<Token, LexError>>)
        ensures
            match step(old(self).remaining()) {
                None => r is None && final(self).remaining() == old(self).remaining(),
                Some(Lexed::Token { token, rest }) => {
                    &&& r matches Some(Ok(t))
                    &&& t@ == token
                    &&& final(self).remaining() == rest
                },
                Some(Lexed::Error { error }) => {
                    &&& r == Some(Err::<Token, LexError>(error))
                    &&& final(self).remaining().len() == 0
                },
            },
    {
        proof {
            use_type_invariant(&*self);
        }
        let from = self.pos;
        if from == self.chars.len() {
            return None;
        }
        let ghost s = self.remaining();
        let c = self.chars[from];
        assert(s[0] == c);
        let found = if c == ' ' || c == '\t' {
            let to = run_end(&self.chars, from, Run::Blank);
            self.pos = to;
            Ok(Token::Whitespace)
        } else if c == '"' {
            let to = run_end(&self.chars, from + 1, Run::Quoted);
            proof {
                assert(s.skip(1) =~= self.chars@.skip(from + 1));
            }
            if to < self.chars.len() {
                let text = text_of(&self.chars, from + 1, to);
                proof {
                    let body = s.skip(1);
                    assert(body.take(to - from - 1) =~= self.chars@.subrange(from + 1, to as int));
                    assert(body.skip(to - from) =~= self.chars@.skip(to + 1));
                }
                self.pos = to + 1;
                Ok(Token::String(text))
            } else {
                Err(LexError::UnterminatedString)
            }
        } else if c == ';' {
            let to = run_end(&self.chars, from, Run::Line);
            self.pos = to;
            Ok(Token::Whitespace)
        } else if let Some(p) = punct(c) {
            self.pos = from + 1;
            Ok(Token::Symbol(p))
        } else if c == '-' {
            if from + 1 < self.chars.len() && self.chars[from + 1] == '>' {
                assert(s[1] == '>');
                self.pos = from + 2;
                Ok(Token::Arrow)
            } else {
                self.pos = from + 1;
                Ok(Token::Symbol(Punct::Minus))
            }
        } else if c == '\n' {
            self.pos = from + 1;
            Ok(Token::Newline)
        } else if Run::Ident.test(c) {
            let to = run_end(&self.chars, from, Run::Ident);
            let name = text_of(&self.chars, from, to);
            proof {
                assert(s.take(to - from) =~= self.chars@.subrange(from as int, to as int));
            }
            self.pos = to;
            Ok(Token::Identifier(name))
        } else if Run::Digit.test(c) {
            let to = numeral_end(&self.chars, from);
            proof {
                lemma_numeral_len(s);
                assert(s.take(to - from) =~= self.chars@.subrange(from as int, to as int));
            }
            let n = Numeral::from_chars(&self.chars, from, to);
            self.pos = to;
            Ok(Token::Number(n))
        } else {
            Err(LexError::UnexpectedCharacter(c))
        };
        proof {
            assert(s.skip(self.pos - from) =~= self.chars@.skip(self.pos as int));
        }
        if found.is_err() {
            self.pos = self.chars.len();
        }
        Some(found)
    }

    /// Reads all the tokens that are left, up to the first error.
    pub fn collect(&mut self) -> (r: Result<Vec<Token>, LexError>)
        ensures
            final(self).remaining().len() == 0,
            match tokens(old(self).remaining()) {
                Ok(all) => r matches Ok(v) && views(v@) == all,
                Err(error) => r == Err::<Vec<Token>, LexError>(error),
            },
    {
        let mut out: Vec<Token> = Vec::new();
        let ghost start = self.remaining();
        assert(views(out@) =~= Seq::<TokenView>::empty());
        loop
            invariant
                start == old(self).remaining(),
                match tokens(self.remaining()) {
                    Ok(more) => tokens(start) == Ok::<Seq<TokenView>, LexError>(views(out@) + more),
                    Err(error) => tokens(start) == Err::<Seq<TokenView>, LexError>(error),
                },
            decreases self.remaining().len(),
        {
            let ghost before = self.remaining();
            let ghost done = out@;
            proof {
                if before.len() > 0 {
                    lemma_first_token_consumes(before);
                }
            }
            match self.next_token() {
                None => {
                    proof {
                        assert(views(out@) + Seq::<TokenView>::empty() =~= views(out@));
                    }
                    return Ok(out);
                },
                Some(Err(error)) => {
                    return Err(error);
                },
                Some(Ok(token)) => {
                    out.push(token);
                    proof {
                        let more = tokens(self.remaining());
                        assert(views(out@) =~= views(done).push(token@));
                        if let Ok(m) = more {
                            assert(views(done) + (seq![token@] + m) =~= views(out@) + m);
                        }
                    }
                },
            }
        }
    }
}

/// The tokens of `source`, or the first error that the scanner meets.
pub fn scan(source: &str) -> (r: Result<Vec<Token>, LexError>)
    ensures
        match tokens(source@) {
            Ok(all) => r matches Ok(v) && views(v@) == all,
            Err(error) => r == Err::<Vec<Token>, LexError>(error),
        },
{
    let chars = chars_of(source);
    assert(chars@.skip(0) =~= chars@);
    let mut scanner = Scanner { chars, pos: 0 };
    scanner.collect()
}

} // verus!
