//! Decimal numerals. A number is kept as the text that was read, which
//! says exactly which number it is; turning it into a machine number is
//! left to the caller.
use vstd::prelude::*;
use crate::chars::{chars_of, is_digit, lemma_run_len, run_end, run_len, text_of, Run};
use crate::error::LexError;

verus! {

/// A decimal numeral: it starts with a digit, holds digits and at most one
/// point, and nothing else. `7`, `7.` and `7.25` are numerals; `.5` and
/// `1.2.3` are not.
pub open spec fn is_numeral(t: Seq<char>) -> bool {
    &&& t.len() > 0
    &&& is_digit(t[0])
    &&& forall|i: int| 0 <= i < t.len() ==> is_digit(#[trigger] t[i]) || t[i] == '.'
    &&& forall|i: int, j: int| 0 <= i < j < t.len() ==> !(#[trigger] t[i] == '.' && #[trigger] t[j] == '.')
}

/// How far the scanner reads when a number starts at the head of `s`: the
/// digits, then a point if one follows, then the digits after it. A second
/// point ends the number and is not part of it.
pub open spec fn numeral_len(s: Seq<char>) -> nat {
    let whole = run_len(s, Run::Digit.pred());
    if whole < s.len() && s[whole as int] == '.' {
        whole + 1 + run_len(s.skip(whole as int + 1), Run::Digit.pred())
    } else {
        whole
    }
}

/// Where `s` starts with a digit, what `numeral_len` measures is a numeral
/// inside `s`, and it is the longest one: no prefix of `s` that is longer
/// is a numeral.
pub proof fn lemma_numeral_len(s: Seq<char>)
    requires
        s.len() > 0,
        is_digit(s[0]),
    ensures
        0 < numeral_len(s) <= s.len(),
        is_numeral(s.take(numeral_len(s) as int)),
        forall|n: int| numeral_len(s) < n <= s.len() ==> !is_numeral(#[trigger] s.take(n)),
{
    let p = Run::Digit.pred();
    let whole = run_len(s, p);
    lemma_run_len(s, p);
    assert(p(s[0]));
    assert(whole > 0) by {
        if whole == 0 {
            assert(!p(s[0]));
        }
    }
    let len = numeral_len(s);
    if whole < s.len() && s[whole as int] == '.' {
        let tail = s.skip(whole as int + 1);
        lemma_run_len(tail, p);
        let frac = run_len(tail, p);
        let t = s.take(len as int);
        assert forall|i: int| 0 <= i < t.len() implies is_digit(#[trigger] t[i]) || t[i] == '.' by {
            if i < whole {
                assert(p(s[i]));
            } else if i > whole {
                assert(p(tail[i - whole - 1]));
            }
        }
        assert forall|i: int, j: int| 0 <= i < j < t.len() implies !(#[trigger] t[i] == '.'
            && #[trigger] t[j] == '.') by {
            if i < whole {
                assert(p(s[i]));
            } else {
                assert(p(tail[j - whole - 1]));
            }
        }
        assert forall|n: int| len < n <= s.len() implies !is_numeral(#[trigger] s.take(n)) by {
            let u = s.take(n);
            assert(!p(tail[frac as int]));
            assert(u[len as int] == tail[frac as int]);
            if u[len as int] == '.' {
                assert(u[whole as int] == '.');
            }
        }
    } else {
        let t = s.take(len as int);
        assert forall|i: int| 0 <= i < t.len() implies is_digit(#[trigger] t[i]) || t[i] == '.' by {
            assert(p(s[i]));
        }
        assert forall|i: int, j: int| 0 <= i < j < t.len() implies !(#[trigger] t[i] == '.'
            && #[trigger] t[j] == '.') by {
            assert(p(s[i]));
        }
        assert forall|n: int| len < n <= s.len() implies !is_numeral(#[trigger] s.take(n)) by {
            let u = s.take(n);
            assert(u[len as int] == s[len as int]);
            assert(!p(s[len as int]));
        }
    }
}

/// A numeral is read to its end.
pub proof fn lemma_numeral_len_of_numeral(t: Seq<char>)
    requires
        is_numeral(t),
    ensures
        numeral_len(t) == t.len(),
{
    lemma_numeral_len(t);
    if numeral_len(t) < t.len() {
        assert(t.take(t.len() as int) =~= t);
    }
}

/// A decimal numeral, held as its text.
#[derive(Debug, PartialEq, Eq)]
pub struct Numeral {
    text: String,
}

impl View for Numeral {
    type V = Seq<char>;

    closed spec fn view(&self) -> Seq<char> {
        self.text@
    }
}

impl Clone for Numeral {
    fn clone(&self) -> (copy: Self)
        ensures
            copy@ == self@,
    {
        proof {
            use_type_invariant(self);
        }
        Numeral { text: self.text.clone() }
    }
}

impl Numeral {
    #[verifier::type_invariant]
    spec fn well_formed(&self) -> bool {
        is_numeral(self.text@)
    }

    /// Reads `text` as a numeral, and fails where it is not one.
    pub fn parse(text: &str) -> (r: Result<Numeral, LexError>)
        ensures
            match r {
                Ok(n) => is_numeral(text@) && n@ == text@,
                Err(e) => !is_numeral(text@) && e == LexError::InvalidNumber,
            },
    {
        let chars = chars_of(text);
        if chars.len() == 0 || !Run::Digit.test(chars[0]) {
            return Err(LexError::InvalidNumber);
        }
        let end = numeral_end(&chars, 0);
        proof {
            assert(chars@.skip(0) =~= chars@);
            lemma_numeral_len(chars@);
            if end == chars.len() {
                assert(chars@.take(end as int) =~= chars@);
            } else {
                assert(chars@.take(chars@.len() as int) =~= chars@);
            }
        }
        if end != chars.len() {
            return Err(LexError::InvalidNumber);
        }
        Ok(Numeral { text: text_of(&chars, 0, end) })
    }

    /// The numeral `chars[from..to]`.
    pub(crate) fn from_chars(chars: &Vec<char>, from: usize, to: usize) -> (n: Numeral)
        requires
            from <= to <= chars.len(),
            is_numeral(chars@.subrange(from as int, to as int)),
        ensures
            n@ == chars@.subrange(from as int, to as int),
    {
        Numeral { text: text_of(chars, from, to) }
    }

    /// The text of the numeral.
    pub fn as_str(&self) -> (text: &str)
        ensures
            text@ == self@,
            is_numeral(text@),
    {
        proof {
            use_type_invariant(self);
        }
        self.text.as_str()
    }
}

/// Reads the number that starts at `from`, and returns the index one past
/// its end.
pub(crate) fn numeral_end(chars: &Vec<char>, from: usize) -> (to: usize)
    requires
        from <= chars.len(),
    ensures
        to == from + numeral_len(chars@.skip(from as int)),
        from <= to <= chars.len(),
{
    let whole = run_end(chars, from, Run::Digit);
    if whole < chars.len() && chars[whole] == '.' {
        let to = run_end(chars, whole + 1, Run::Digit);
        proof {
            let s = chars@.skip(from as int);
            assert(s.skip(whole - from + 1) =~= chars@.skip(whole + 1));
        }
        to
    } else {
        whole
    }
}

} // verus!
