//! Repository-relative file paths, modelled as character sequences with
//! `/` as the separator.
//!
//! The empty path stands for the repository root.  `spec_parent` walks one
//! level up; a path without a separator has the root as its parent, and the
//! root itself has none.  These functions give the meaning that the package
//! membership walk is specified over.

use vstd::prelude::*;

use crate::strutil::chars_of;
use crate::strutil::str_eq;

verus! {

use vstd::string::StrSliceExecFns;

/// Index of the last occurrence of `ch` in `s`, if any.
pub open spec fn spec_last_index_of(s: Seq<char>, ch: char) -> Option<int>
    decreases s.len(),
{
    if s.len() == 0 {
        None
    } else if s[s.len() - 1] == ch {
        Some(s.len() - 1)
    } else {
        spec_last_index_of(s.drop_last(), ch)
    }
}

/// A found occurrence lies inside the sequence.
pub proof fn lemma_last_index_bounds(s: Seq<char>, ch: char)
    ensures
        match spec_last_index_of(s, ch) {
            Some(i) => 0 <= i < s.len() && s[i] == ch,
            None => true,
        },
    decreases s.len(),
{
    if s.len() > 0 && s[s.len() - 1] != ch {
        lemma_last_index_bounds(s.drop_last(), ch);
    }
}

proof fn lemma_last_index_at(s: Seq<char>, ch: char, j: int)
    requires
        0 <= j < s.len(),
        s[j] == ch,
        forall|k: int| j < k < s.len() ==> s[k] != ch,
    ensures
        spec_last_index_of(s, ch) == Some(j),
    decreases s.len(),
{
    if j < s.len() - 1 {
        let t = s.drop_last();
        assert(forall|k: int| j < k < t.len() ==> #[trigger] t[k] == s[k]);
        lemma_last_index_at(t, ch, j);
    }
}

proof fn lemma_last_index_none(s: Seq<char>, ch: char)
    requires
        forall|k: int| 0 <= k < s.len() ==> s[k] != ch,
    ensures
        spec_last_index_of(s, ch) is None,
    decreases s.len(),
{
    if s.len() > 0 {
        lemma_last_index_none(s.drop_last(), ch);
    }
}

/// The directory one level above `p`: everything before the last separator,
/// or the root for a path without one.
pub open spec fn spec_parent(p: Seq<char>) -> Seq<char> {
    match spec_last_index_of(p, '/') {
        Some(i) => p.take(i),
        None => Seq::empty(),
    }
}

/// A parent is strictly shorter than its child, so upward walks end.
pub proof fn lemma_parent_shorter(p: Seq<char>)
    requires
        p.len() > 0,
    ensures
        spec_parent(p).len() < p.len(),
{
    lemma_last_index_bounds(p, '/');
}

/// The last component of `p`: everything after the last separator.
pub open spec fn spec_file_name(p: Seq<char>) -> Seq<char> {
    match spec_last_index_of(p, '/') {
        Some(i) => p.skip(i + 1),
        None => p,
    }
}

/// The extension of `p`: what follows the last dot of its file name,
/// provided that dot is not the name's first character.
pub open spec fn spec_extension(p: Seq<char>) -> Option<Seq<char>> {
    let name = spec_file_name(p);
    match spec_last_index_of(name, '.') {
        Some(i) => if i > 0 {
            Some(name.skip(i + 1))
        } else {
            None
        },
        None => None,
    }
}

/// Whether a changed file concerns package membership at all: a package
/// manifest, or a source file of the workspace's language.
pub open spec fn spec_eligible(p: Seq<char>) -> bool {
    spec_file_name(p) == "Cargo.toml"@ || spec_extension(p) == Some("rs"@)
}

/// Whether `p` is a workspace-level configuration file: the manifest or
/// lockfile at the repository root.
pub open spec fn spec_workspace_config(p: Seq<char>) -> bool {
    p == "Cargo.toml"@ || p == "Cargo.lock"@
}

/// Finds the last `/` of `path`, so that callers can slice out parent and
/// file name.
fn last_slash(cv: &Vec<char>) -> (r: Option<usize>)
    ensures
        match r {
            Some(j) => spec_last_index_of(cv@, '/') == Some(j as int),
            None => spec_last_index_of(cv@, '/') is None,
        },
{
    let n = cv.len();
    let mut k: usize = n;
    while k > 0
        invariant
            0 <= k <= n,
            n == cv.len(),
            forall|t: int| k <= t < n ==> cv@[t] != '/',
        decreases k,
    {
        if cv[k - 1] == '/' {
            proof {
                lemma_last_index_at(cv@, '/', k - 1);
            }
            return Some(k - 1);
        }
        k = k - 1;
    }
    proof {
        lemma_last_index_none(cv@, '/');
    }
    None
}

/// The parent directory of `path`, or `None` for the root.
pub fn parent_dir<'a>(path: &'a str) -> (r: Option<&'a str>)
    ensures
        match r {
            Some(d) => path@.len() > 0 && d@ == spec_parent(path@),
            None => path@.len() == 0,
        },
{
    let cv = chars_of(path);
    if cv.len() == 0 {
        return None;
    }
    match last_slash(&cv) {
        Some(j) => {
            proof {
                lemma_last_index_bounds(path@, '/');
                assert(path@.subrange(0, j as int) =~= path@.take(j as int));
            }
            Some(path.substring_char(0, j))
        },
        None => {
            proof {
                assert(path@.subrange(0, 0) =~= Seq::<char>::empty());
            }
            Some(path.substring_char(0, 0))
        },
    }
}

/// The last component of `path`.
pub fn file_name<'a>(path: &'a str) -> (r: &'a str)
    ensures
        r@ == spec_file_name(path@),
{
    let cv = chars_of(path);
    let n = cv.len();
    match last_slash(&cv) {
        Some(j) => {
            proof {
                lemma_last_index_bounds(path@, '/');
                assert(path@.subrange(j + 1, n as int) =~= path@.skip(j + 1));
            }
            path.substring_char(j + 1, n)
        },
        None => {
            proof {
                assert(path@.subrange(0, n as int) =~= path@);
            }
            path.substring_char(0, n)
        },
    }
}

/// Whether a changed file concerns package membership: the executable
/// mirror of `spec_eligible`.
pub fn is_eligible(path: &str) -> (r: bool)
    ensures
        r == spec_eligible(path@),
{
    let name = file_name(path);
    if str_eq(name, "Cargo.toml") {
        return true;
    }
    let nv = chars_of(name);
    let n = nv.len();
    match last_slash_dot(&nv) {
        Some(d) => {
            if d > 0 {
                proof {
                    lemma_last_index_bounds(name@, '.');
                    assert(name@.subrange(d + 1, n as int) =~= name@.skip(d + 1));
                }
                let ext = name.substring_char(d + 1, n);
                str_eq(ext, "rs")
            } else {
                false
            }
        },
        None => false,
    }
}

/// Finds the last `.` of a file name.
fn last_slash_dot(cv: &Vec<char>) -> (r: Option<usize>)
    ensures
        match r {
            Some(j) => spec_last_index_of(cv@, '.') == Some(j as int),
            None => spec_last_index_of(cv@, '.') is None,
        },
{
    let n = cv.len();
    let mut k: usize = n;
    while k > 0
        invariant
            0 <= k <= n,
            n == cv.len(),
            forall|t: int| k <= t < n ==> cv@[t] != '.',
        decreases k,
    {
        if cv[k - 1] == '.' {
            proof {
                lemma_last_index_at(cv@, '.', k - 1);
            }
            return Some(k - 1);
        }
        k = k - 1;
    }
    proof {
        lemma_last_index_none(cv@, '.');
    }
    None
}

/// Whether `path` is the workspace manifest or lockfile: the executable
/// mirror of `spec_workspace_config`.
pub fn is_workspace_config(path: &str) -> (r: bool)
    ensures
        r == spec_workspace_config(path@),
{
    str_eq(path, "Cargo.toml") || str_eq(path, "Cargo.lock")
}

} // verus!
