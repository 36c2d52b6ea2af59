//! Character-level helpers shared by the diff parser and the path routines.
//!
//! Diff text and file paths are handled as sequences of characters; the spec
//! functions here give the mathematical meaning of trimming, token splitting
//! and equality that the contracts of the parsing functions are stated over.

use vstd::prelude::*;

verus! {

use vstd::std_specs::iter::IteratorSpec;

/// The whitespace characters recognised when trimming and splitting:
/// the ASCII blanks that version-control output can carry.
pub open spec fn is_space_char(c: char) -> bool {
    c == ' ' || c == '\t' || c == '\r' || c == '\n'
}

/// Executable mirror of `is_space_char`.
pub fn is_space(c: char) -> (r: bool)
    ensures
        r == is_space_char(c),
{
    c == ' ' || c == '\t' || c == '\r' || c == '\n'
}

/// `s` with its leading whitespace removed.
pub open spec fn spec_trim_start(s: Seq<char>) -> Seq<char>
    decreases s.len(),
{
    if s.len() == 0 {
        s
    } else if is_space_char(s[0]) {
        spec_trim_start(s.drop_first())
    } else {
        s
    }
}

/// `s` with its trailing whitespace removed.
pub open spec fn spec_trim_end(s: Seq<char>) -> Seq<char>
    decreases s.len(),
{
    if s.len() == 0 {
        s
    } else if is_space_char(s[s.len() - 1]) {
        spec_trim_end(s.drop_last())
    } else {
        s
    }
}

/// `s` with leading and trailing whitespace removed.
pub open spec fn spec_trim(s: Seq<char>) -> Seq<char> {
    spec_trim_end(spec_trim_start(s))
}

/// The characters of `s`, as a vector that can be indexed directly.
pub fn chars_of(s: &str) -> (r: Vec<char>)
    ensures
        r@ == s@,
{
    broadcast use vstd::string::next_postcondition, vstd::string::axiom_spec_iter;

    let mut it = s.chars();
    let mut out: Vec<char> = Vec::new();
    loop
        invariant
            out@ + it.remaining() == s@,
            it.obeys_prophetic_iter_laws(),
            it.decrease() is Some,
        ensures
            out@ + it.remaining() == s@,
            it.remaining().len() == 0,
        decreases it.decrease()->0,
    {
        match it.next() {
            Some(c) => {
                out.push(c);
                assert(out@ + it.remaining() =~= s@);
            },
            None => {
                break ;
            },
        }
    }
    assert(out@ =~= s@);
    out
}

pub proof fn lemma_trim_start_at(s: Seq<char>, a: int)
    requires
        0 <= a <= s.len(),
        forall|k: int| 0 <= k < a ==> is_space_char(s[k]),
        a < s.len() ==> !is_space_char(s[a]),
    ensures
        spec_trim_start(s) =~= s.subrange(a, s.len() as int),
    decreases a,
{
    if a == 0 {
        if s.len() > 0 {
            assert(spec_trim_start(s) == s);
        }
        assert(spec_trim_start(s) =~= s.subrange(0, s.len() as int));
    } else {
        let t = s.drop_first();
        assert(forall|k: int| 0 <= k < a - 1 ==> is_space_char(#[trigger] t[k]));
        lemma_trim_start_at(t, a - 1);
        assert(t.subrange(a - 1, t.len() as int) =~= s.subrange(a, s.len() as int));
    }
}

pub proof fn lemma_trim_end_at(s: Seq<char>, b: int)
    requires
        0 <= b <= s.len(),
        forall|k: int| b <= k < s.len() ==> is_space_char(s[k]),
        b > 0 ==> !is_space_char(s[b - 1]),
    ensures
        spec_trim_end(s) =~= s.subrange(0, b),
    decreases s.len(),
{
    if b == s.len() {
        if s.len() > 0 {
            assert(spec_trim_end(s) == s);
        }
        assert(spec_trim_end(s) =~= s.subrange(0, b));
    } else {
        let t = s.drop_last();
        assert(forall|k: int| b <= k < t.len() ==> is_space_char(#[trigger] t[k]));
        lemma_trim_end_at(t, b);
        assert(t.subrange(0, b) =~= s.subrange(0, b));
    }
}

/// `s` without surrounding whitespace, as the borrowed middle of `s`.
pub fn trim_str<'a>(s: &'a str) -> (r: &'a str)
    ensures
        r@ == spec_trim(s@),
{
    let cv = chars_of(s);
    let n = cv.len();
    let mut a: usize = 0;
    while a < n && is_space(cv[a])
        invariant
            0 <= a <= n,
            n == cv.len(),
            cv@ == s@,
            forall|k: int| 0 <= k < a ==> is_space_char(s@[k]),
        decreases n - a,
    {
        a = a + 1;
    }
    let mut b: usize = n;
    while b > a && is_space(cv[b - 1])
        invariant
            a <= b <= n,
            n == cv.len(),
            cv@ == s@,
            forall|k: int| 0 <= k < a ==> is_space_char(s@[k]),
            a < s@.len() ==> !is_space_char(s@[a as int]),
            forall|k: int| b <= k < n ==> is_space_char(s@[k]),
        decreases b,
    {
        b = b - 1;
    }
    proof {
        lemma_trim_start_at(s@, a as int);
        let t = s@.subrange(a as int, s@.len() as int);
        if a == b {
            assert(forall|k: int| 0 <= k < t.len() ==> is_space_char(#[trigger] t[k]));
            lemma_trim_end_at(t, 0);
        } else {
            assert(forall|k: int| b - a <= k < t.len() ==> is_space_char(#[trigger] t[k]));
            assert(!is_space_char(t[b - a - 1]));
            lemma_trim_end_at(t, b - a);
        }
        assert(t.subrange(0, b - a) =~= s@.subrange(a as int, b as int));
    }
    let r = s.substring_char(a, b);
    r
}

/// Whether two string slices hold the same characters.
pub fn str_eq(x: &str, y: &str) -> (r: bool)
    ensures
        r == (x@ == y@),
{
    let xv = chars_of(x);
    let yv = chars_of(y);
    if xv.len() != yv.len() {
        return false;
    }
    let n = xv.len();
    let mut i: usize = 0;
    while i < n
        invariant
            0 <= i <= n,
            n == xv.len() == yv.len(),
            xv@ == x@,
            yv@ == y@,
            forall|k: int| 0 <= k < i ==> x@[k] == y@[k],
        decreases n - i,
    {
        if xv[i] != yv[i] {
            return false;
        }
        i = i + 1;
    }
    proof {
        assert(x@ =~= y@);
    }
    true
}

} // verus!
