//! Character classes and maximal runs, the vocabulary in which the scanner
//! is specified.
use vstd::prelude::*;

verus! {

/// A space or a tab. Newlines are not blank: they are tokens of their own.
pub open spec fn is_blank(c: char) -> bool {
    c == ' ' || c == '\t'
}

/// One of the ten decimal digits.
pub open spec fn is_digit(c: char) -> bool {
    '0' <= c && c <= '9'
}

/// A letter of the ASCII alphabet.
pub open spec fn is_ascii_letter(c: char) -> bool {
    ('a' <= c && c <= 'z') || ('A' <= c && c <= 'Z')
}

/// Whether `c` belongs to ASCII.
pub open spec fn is_ascii(c: char) -> bool {
    c <= '\x7f'
}

/// Whether Unicode gives `c` the Alphabetic property, as `char::is_alphabetic`
/// reports it. The table is too large to write down; it is only ever
/// consulted for characters outside ASCII.
pub uninterp spec fn unicode_alphabetic(c: char) -> bool;

/// A letter: an ASCII letter, or a character outside ASCII that Unicode
/// lists as alphabetic.
pub open spec fn is_letter(c: char) -> bool {
    if is_ascii(c) {
        is_ascii_letter(c)
    } else {
        unicode_alphabetic(c)
    }
}

/// A character that may stand in an identifier: a letter or an underscore.
/// Digits may not.
pub open spec fn is_ident_char(c: char) -> bool {
    is_letter(c) || c == '_'
}

/// Calls `char::is_alphabetic`. Nothing is proved of the answer; the
/// contract only gives it the name `unicode_alphabetic(c)`, which is sound
/// because the answer depends on `c` alone.
#[verifier::external_body]
fn alphabetic(c: char) -> (b: bool)
    ensures
        b == unicode_alphabetic(c),
{
    c.is_alphabetic()
}

/// Decides [`is_letter`].
pub fn letter(c: char) -> (b: bool)
    ensures
        b == is_letter(c),
{
    if c <= '\x7f' {
        (c >= 'a' && c <= 'z') || (c >= 'A' && c <= 'Z')
    } else {
        alphabetic(c)
    }
}

/// The character classes of which the scanner reads maximal runs.
#[derive(Clone, Copy, Debug, PartialEq, Eq, Structural)]
pub enum Run {
    /// Spaces and tabs.
    Blank,
    /// Letters and underscores.
    Ident,
    /// Decimal digits.
    Digit,
    /// Everything but a double quote: the inside of a string literal.
    Quoted,
    /// Everything but a newline: the rest of a line.
    Line,
}

impl Run {
    /// Whether `c` belongs to the class.
    pub open spec fn admits(self, c: char) -> bool {
        match self {
            Run::Blank => is_blank(c),
            Run::Ident => is_ident_char(c),
            Run::Digit => is_digit(c),
            Run::Quoted => c != '"',
            Run::Line => c != '\n',
        }
    }

    /// The class as a predicate.
    pub open spec fn pred(self) -> spec_fn(char) -> bool {
        |c: char| self.admits(c)
    }

    /// Decides [`Run::admits`].
    pub fn test(self, c: char) -> (b: bool)
        ensures
            b == self.admits(c),
    {
        match self {
            Run::Blank => c == ' ' || c == '\t',
            Run::Ident => c == '_' || letter(c),
            Run::Digit => c >= '0' && c <= '9',
            Run::Quoted => c != '"',
            Run::Line => c != '\n',
        }
    }
}

/// Appends a character: `String::push`, which the standard library documents
/// as adding `ch` to the end of the string.
pub assume_specification[ std::string::String::push ](s: &mut std::string::String, ch: char)
    ensures
        final(s)@ == old(s)@.push(ch),
;

/// The characters of `s`, in order.
pub fn chars_of(s: &str) -> (chars: Vec<char>)
    ensures
        chars@ == s@,
{
    let mut chars: Vec<char> = Vec::new();
    for c in it: s.chars()
        invariant
            it.seq() == s@,
            chars@ == it.seq().take(it.index() as int),
    {
        chars.push(c);
    }
    chars
}

/// The string made of `chars[from..to]`.
pub(crate) fn text_of(chars: &Vec<char>, from: usize, to: usize) -> (text: String)
    requires
        from <= to <= chars.len(),
    ensures
        text@ == chars@.subrange(from as int, to as int),
{
    let mut text = String::new();
    let mut i: usize = from;
    while i < to
        invariant
            from <= i <= to <= chars.len(),
            text@ == chars@.subrange(from as int, i as int),
        decreases to - i,
    {
        text.push(chars[i]);
        i += 1;
    }
    text
}

/// The length of the longest prefix of `s` all of whose elements satisfy `p`.
pub open spec fn run_len<A>(s: Seq<A>, p: spec_fn(A) -> bool) -> nat
    decreases s.len(),
{
    if s.len() > 0 && p(s[0]) {
        1 + run_len(s.drop_first(), p)
    } else {
        0
    }
}

/// What `run_len` is, said without recursion: the run lies inside `s`, every
/// element of it satisfies `p`, and the element after it, if there is one,
/// does not.
pub proof fn lemma_run_len<A>(s: Seq<A>, p: spec_fn(A) -> bool)
    ensures
        run_len(s, p) <= s.len(),
        forall|i: int| 0 <= i < run_len(s, p) ==> p(#[trigger] s[i]),
        run_len(s, p) < s.len() ==> !p(s[run_len(s, p) as int]),
    decreases s.len(),
{
    if s.len() > 0 && p(s[0]) {
        let t = s.drop_first();
        lemma_run_len(t, p);
        assert forall|i: int| 0 <= i < run_len(s, p) implies p(#[trigger] s[i]) by {
            if i > 0 {
                assert(s[i] == t[i - 1]);
            }
        }
        if run_len(s, p) < s.len() {
            assert(s[run_len(s, p) as int] == t[run_len(t, p) as int]);
        }
    }
}

/// The three properties of [`lemma_run_len`] single out one length.
pub proof fn lemma_run_len_unique<A>(s: Seq<A>, p: spec_fn(A) -> bool, n: nat)
    requires
        n <= s.len(),
        forall|i: int| 0 <= i < n ==> p(#[trigger] s[i]),
        n < s.len() ==> !p(s[n as int]),
    ensures
        run_len(s, p) == n,
    decreases s.len(),
{
    if n > 0 {
        let t = s.drop_first();
        assert(p(s[0]));
        assert forall|i: int| 0 <= i < n - 1 implies p(#[trigger] t[i]) by {
            assert(t[i] == s[i + 1]);
        }
        if n - 1 < t.len() {
            assert(t[n - 1] == s[n as int]);
        }
        lemma_run_len_unique(t, p, (n - 1) as nat);
    }
}

/// Reads the maximal run of `class` that starts at `from`, and returns the
/// index one past its end.
pub(crate) fn run_end(chars: &Vec<char>, from: usize, class: Run) -> (to: usize)
    requires
        from <= chars.len(),
    ensures
        to == from + run_len(chars@.skip(from as int), class.pred()),
        from <= to <= chars.len(),
{
    let mut to: usize = from;
    while to < chars.len() && class.test(chars[to])
        invariant
            from <= to <= chars.len(),
            forall|i: int| from <= i < to ==> class.admits(#[trigger] chars@[i]),
        decreases chars.len() - to,
    {
        to += 1;
    }
    proof {
        let rest = chars@.skip(from as int);
        let p = class.pred();
        assert forall|i: int| 0 <= i < to - from implies p(#[trigger] rest[i]) by {
            assert(class.admits(chars@[from + i]));
        }
        lemma_run_len_unique(rest, p, (to - from) as nat);
    }
    to
}

} // verus!
