//! Parsing of `name-status` diff text into structured change records.
//!
//! Each non-blank line of the input carries a status code followed by one
//! path (`A`, `D`, `M`, `MM`, `AM`, `T`) or, for renames (any code that
//! starts with `R`), an old and a new path separated either by an explicit
//! ` -> ` sequence or by a single tab.  A rename whose two paths are equal
//! is normalized to a plain modification.  Blank lines and lines shorter
//! than the smallest viable record are skipped; any other status code is an
//! error, since silently dropping a change record would under-verify.

use vstd::prelude::*;

use crate::strutil::chars_of;
use crate::strutil::is_space;
use crate::strutil::is_space_char;
use crate::strutil::spec_trim;
use crate::strutil::spec_trim_end;
use crate::strutil::spec_trim_start;
use crate::strutil::str_eq;
use crate::strutil::trim_str;

verus! {

use vstd::string::StrSliceExecFns;

/// One structured record from a diff line.
#[derive(Clone, Debug, PartialEq, Eq)]
pub enum GitStatus {
    Added { file: String },
    Deleted { file: String },
    FileTypeChanged { file: String },
    Modified { file: String },
    Renamed { old: String, new: String },
}

/// Mathematical form of a change record, over character sequences.
pub enum GitStatusView {
    Added { file: Seq<char> },
    Deleted { file: Seq<char> },
    FileTypeChanged { file: Seq<char> },
    Modified { file: Seq<char> },
    Renamed { old: Seq<char>, new: Seq<char> },
}

impl View for GitStatus {
    type V = GitStatusView;

    open spec fn view(&self) -> GitStatusView {
        match self {
            GitStatus::Added { file } => GitStatusView::Added { file: file@ },
            GitStatus::Deleted { file } => GitStatusView::Deleted { file: file@ },
            GitStatus::FileTypeChanged { file } => GitStatusView::FileTypeChanged { file: file@ },
            GitStatus::Modified { file } => GitStatusView::Modified { file: file@ },
            GitStatus::Renamed { old, new } => GitStatusView::Renamed { old: old@, new: new@ },
        }
    }
}

/// The path a record leaves in the tree, if any: a deletion leaves none,
/// a rename leaves its new path.
pub open spec fn spec_new_file_name(v: GitStatusView) -> Option<Seq<char>> {
    match v {
        GitStatusView::Added { file } => Some(file),
        GitStatusView::Deleted { .. } => None,
        GitStatusView::FileTypeChanged { file } => Some(file),
        GitStatusView::Modified { file } => Some(file),
        GitStatusView::Renamed { new, .. } => Some(new),
    }
}

/// The path a record took out of the tree, if any: an addition took none,
/// a rename took its old path.
pub open spec fn spec_old_file_name(v: GitStatusView) -> Option<Seq<char>> {
    match v {
        GitStatusView::Added { .. } => None,
        GitStatusView::Deleted { file } => Some(file),
        GitStatusView::FileTypeChanged { file } => Some(file),
        GitStatusView::Modified { file } => Some(file),
        GitStatusView::Renamed { old, .. } => Some(old),
    }
}

impl GitStatus {
    /// The path this record leaves in the tree, if any.
    pub fn new_file_name(&self) -> (r: Option<&str>)
        ensures
            match (r, spec_new_file_name(self@)) {
                (Some(s), Some(t)) => s@ == t,
                (None, None) => true,
                _ => false,
            },
    {
        match self {
            GitStatus::Added { file } => Some(file.as_str()),
            GitStatus::Deleted { .. } => None,
            GitStatus::FileTypeChanged { file } => Some(file.as_str()),
            GitStatus::Modified { file } => Some(file.as_str()),
            GitStatus::Renamed { new, .. } => Some(new.as_str()),
        }
    }

    /// The path this record took out of the tree, if any.
    pub fn old_file_name(&self) -> (r: Option<&str>)
        ensures
            match (r, spec_old_file_name(self@)) {
                (Some(s), Some(t)) => s@ == t,
                (None, None) => true,
                _ => false,
            },
    {
        match self {
            GitStatus::Added { .. } => None,
            GitStatus::Deleted { file } => Some(file.as_str()),
            GitStatus::FileTypeChanged { file } => Some(file.as_str()),
            GitStatus::Modified { file } => Some(file.as_str()),
            GitStatus::Renamed { old, .. } => Some(old.as_str()),
        }
    }
}

/// A diff line whose status code is not supported.
#[derive(Clone, Debug, PartialEq, Eq)]
pub struct ParseError {
    pub line: String,
}

impl View for ParseError {
    type V = Seq<char>;

    open spec fn view(&self) -> Seq<char> {
        self.line@
    }
}

/// Index of the first whitespace character of `s`, or `s.len()` if none.
pub open spec fn spec_first_space(s: Seq<char>) -> int
    decreases s.len(),
{
    if s.len() == 0 {
        0
    } else if is_space_char(s[0]) {
        0
    } else {
        1 + spec_first_space(s.drop_first())
    }
}

/// The status token of a line: its first whitespace-delimited word.
pub open spec fn spec_token(line: Seq<char>) -> Seq<char> {
    let t = spec_trim_start(line);
    t.take(spec_first_space(t))
}

/// What follows the status token of a line, trimmed.
pub open spec fn spec_payload(line: Seq<char>) -> Seq<char> {
    let t = spec_trim_start(line);
    spec_trim(t.skip(spec_first_space(t)))
}

/// The explicit separator sequence between the two paths of a rename.
pub open spec fn arrow_sep() -> Seq<char> {
    seq![' ', '-', '>', ' ']
}

/// Whether the explicit rename separator stands at position `p` of `s`.
pub open spec fn arrow_at(s: Seq<char>, p: int) -> bool {
    0 <= p && p + 4 <= s.len() && s.subrange(p, p + 4) == arrow_sep()
}

/// Position of the first rename separator at or after `p`: an explicit
/// ` -> ` sequence, or a single tab.
pub open spec fn spec_find_sep(s: Seq<char>, p: int) -> Option<int>
    decreases s.len() - p,
{
    if p < 0 || p >= s.len() {
        None
    } else if arrow_at(s, p) {
        Some(p)
    } else if s[p] == '\t' {
        Some(p)
    } else {
        spec_find_sep(s, p + 1)
    }
}

/// The two paths of a rename payload, split at the first separator and
/// trimmed; `None` when the payload holds no separator.
pub open spec fn spec_split_rename(rest: Seq<char>) -> Option<(Seq<char>, Seq<char>)> {
    match spec_find_sep(rest, 0) {
        None => None,
        Some(p) => {
            let old = spec_trim(rest.take(p));
            let new = if arrow_at(rest, p) {
                spec_trim(rest.skip(p + 4))
            } else {
                spec_trim(rest.skip(p + 1))
            };
            Some((old, new))
        },
    }
}

/// What one line of diff text contributes: nothing, one record, or an error.
pub enum LineOutcome {
    Skip,
    Record(GitStatusView),
    Unsupported,
}

/// Meaning of a single diff line.
pub open spec fn spec_parse_line(line: Seq<char>) -> LineOutcome {
    if line.len() < 3 {
        LineOutcome::Skip
    } else {
        let tok = spec_token(line);
        let rest = spec_payload(line);
        if tok.len() == 0 {
            LineOutcome::Skip
        } else if tok == seq!['A'] {
            LineOutcome::Record(GitStatusView::Added { file: rest })
        } else if tok == seq!['D'] {
            LineOutcome::Record(GitStatusView::Deleted { file: rest })
        } else if tok == seq!['M'] || tok == seq!['M', 'M'] || tok == seq!['A', 'M'] {
            LineOutcome::Record(GitStatusView::Modified { file: rest })
        } else if tok == seq!['T'] {
            LineOutcome::Record(GitStatusView::FileTypeChanged { file: rest })
        } else if tok[0] == 'R' {
            match spec_split_rename(rest) {
                None => LineOutcome::Unsupported,
                Some((old, new)) => {
                    if old == new {
                        LineOutcome::Record(GitStatusView::Modified { file: new })
                    } else {
                        LineOutcome::Record(GitStatusView::Renamed { old, new })
                    }
                },
            }
        } else {
            LineOutcome::Unsupported
        }
    }
}

/// Position of the line break ending the line that starts at `i`, or the
/// end of the text.
pub open spec fn spec_line_end(text: Seq<char>, i: int) -> int
    decreases text.len() - i,
{
    if i < 0 || i >= text.len() {
        text.len() as int
    } else if text[i] == '\n' {
        i
    } else {
        spec_line_end(text, i + 1)
    }
}

/// The line break ending a line lies between the line's start and the end
/// of the text.
pub proof fn lemma_line_end_bounds(text: Seq<char>, i: int)
    requires
        0 <= i <= text.len(),
    ensures
        i <= spec_line_end(text, i) <= text.len(),
    decreases text.len() - i,
{
    if i < text.len() && text[i] != '\n' {
        lemma_line_end_bounds(text, i + 1);
    }
}

/// Meaning of the diff text from position `i` on: the records of its
/// lines in order, or the first unsupported line.
pub open spec fn spec_parse_from(text: Seq<char>, i: int) -> Result<Seq<GitStatusView>, Seq<char>>
    decreases text.len() + 1 - i,
    via spec_parse_from_decreases
{
    if i < 0 || i >= text.len() {
        Ok(seq![])
    } else {
        let j = spec_line_end(text, i);
        let line = text.subrange(i, j);
        match spec_parse_line(line) {
            LineOutcome::Unsupported => Err(line),
            LineOutcome::Skip => spec_parse_from(text, j + 1),
            LineOutcome::Record(r) => match spec_parse_from(text, j + 1) {
                Ok(rs) => Ok(seq![r] + rs),
                Err(e) => Err(e),
            },
        }
    }
}

#[via_fn]
proof fn spec_parse_from_decreases(text: Seq<char>, i: int) {
    if 0 <= i < text.len() {
        lemma_line_end_bounds(text, i);
    }
}

/// Meaning of a whole diff text.
pub open spec fn spec_parse(text: Seq<char>) -> Result<Seq<GitStatusView>, Seq<char>> {
    spec_parse_from(text, 0)
}

/// The views of a sequence of records.
pub open spec fn views_of(s: Seq<GitStatus>) -> Seq<GitStatusView> {
    Seq::new(s.len(), |i: int| s[i]@)
}

proof fn lemma_first_space_at(s: Seq<char>, k: int)
    requires
        0 <= k <= s.len(),
        forall|j: int| 0 <= j < k ==> !is_space_char(s[j]),
        k < s.len() ==> is_space_char(s[k]),
    ensures
        spec_first_space(s) == k,
    decreases k,
{
    if k == 0 {
    } else {
        let t = s.drop_first();
        assert(forall|j: int| 0 <= j < k - 1 ==> !is_space_char(#[trigger] t[j]));
        lemma_first_space_at(t, k - 1);
    }
}

pub proof fn lemma_line_end_at(text: Seq<char>, i: int, j: int)
    requires
        0 <= i <= j <= text.len(),
        forall|k: int| i <= k < j ==> text[k] != '\n',
        j < text.len() ==> text[j] == '\n',
    ensures
        spec_line_end(text, i) == j,
    decreases j - i,
{
    if i < j {
        lemma_line_end_at(text, i + 1, j);
    }
}

/// Whether every line of the text from position `i` on is blank, too
/// short, or carries a supported status code.
pub open spec fn spec_all_lines_supported(text: Seq<char>, i: int) -> bool
    decreases text.len() + 1 - i,
    via spec_all_lines_supported_decreases
{
    if i < 0 || i >= text.len() {
        true
    } else {
        let j = spec_line_end(text, i);
        !(spec_parse_line(text.subrange(i, j)) is Unsupported) && spec_all_lines_supported(
            text,
            j + 1,
        )
    }
}

#[via_fn]
proof fn spec_all_lines_supported_decreases(text: Seq<char>, i: int) {
    if 0 <= i < text.len() {
        lemma_line_end_bounds(text, i);
    }
}

/// How many records the lines from position `i` on produce: one for each
/// line that is neither skipped nor in error.
pub open spec fn spec_record_count(text: Seq<char>, i: int) -> nat
    decreases text.len() + 1 - i,
    via spec_record_count_decreases
{
    if i < 0 || i >= text.len() {
        0
    } else {
        let j = spec_line_end(text, i);
        (match spec_parse_line(text.subrange(i, j)) {
            LineOutcome::Record(_) => 1nat,
            _ => 0nat,
        }) + spec_record_count(text, j + 1)
    }
}

#[via_fn]
proof fn spec_record_count_decreases(text: Seq<char>, i: int) {
    if 0 <= i < text.len() {
        lemma_line_end_bounds(text, i);
    }
}

proof fn lemma_parse_total_from(text: Seq<char>, i: int)
    requires
        spec_all_lines_supported(text, i),
    ensures
        spec_parse_from(text, i) is Ok,
        spec_parse_from(text, i)->Ok_0.len() == spec_record_count(text, i),
    decreases text.len() + 1 - i,
{
    if 0 <= i < text.len() {
        lemma_line_end_bounds(text, i);
        let j = spec_line_end(text, i);
        lemma_parse_total_from(text, j + 1);
    }
}

/// Parsing is total on supported input: for any diff text in which every
/// line is blank, too short, or carries a supported status code, parsing
/// succeeds and produces exactly one record per viable line.  And since
/// the meaning of a text is a function of its characters alone, parsing
/// is deterministic.
pub proof fn lemma_parse_total(text: Seq<char>)
    requires
        spec_all_lines_supported(text, 0),
    ensures
        spec_parse(text) is Ok,
        spec_parse(text)->Ok_0.len() == spec_record_count(text, 0),
{
    lemma_parse_total_from(text, 0);
}

proof fn lemma_find_sep_scan(s: Seq<char>, q: int, m: int)
    requires
        0 <= q <= m <= s.len(),
        forall|t: int| q <= t < m ==> !arrow_at(s, t) && s[t] != '\t',
        m < s.len() ==> (arrow_at(s, m) || s[m] == '\t'),
    ensures
        spec_find_sep(s, q) == (if m < s.len() {
            Some(m)
        } else {
            Option::<int>::None
        }),
    decreases m - q,
{
    if q < m {
        lemma_find_sep_scan(s, q + 1, m);
    }
}

/// A rename whose two paths are identical normalizes to a plain
/// modification: for any status token that starts with `R`, and any path
/// free of tabs, of the explicit separator sequence, and of surrounding
/// blanks, the line `<token><tab><path><tab><path>` parses to a single
/// `Modified` record carrying that path.
pub proof fn lemma_identical_rename_is_modified(tok: Seq<char>, p: Seq<char>)
    requires
        tok.len() >= 1,
        tok[0] == 'R',
        forall|k: int| 0 <= k < tok.len() ==> !is_space_char(#[trigger] tok[k]),
        p.len() >= 1,
        !is_space_char(p[0]),
        !is_space_char(p[p.len() - 1]),
        forall|k: int| 0 <= k < p.len() ==> #[trigger] p[k] != '\t',
        forall|q: int| !arrow_at(p, q),
    ensures
        spec_parse_line(tok + seq!['\t'] + p + seq!['\t'] + p) == LineOutcome::Record(
            GitStatusView::Modified { file: p },
        ),
{
    let line = tok + seq!['\t'] + p + seq!['\t'] + p;
    assert(line.len() == tok.len() + 2 * p.len() + 2);
    assert(forall|k: int| 0 <= k < tok.len() ==> #[trigger] line[k] == tok[k]);
    assert(line[tok.len() as int] == '\t');
    assert(spec_trim_start(line) == line);
    lemma_first_space_at(line, tok.len() as int);
    let tok2 = spec_token(line);
    assert(tok2 =~= tok);
    let rest0 = line.skip(tok.len() as int);
    let rest1 = p + seq!['\t'] + p;
    assert(rest0.drop_first() =~= rest1);
    assert(spec_trim_start(rest0) == spec_trim_start(rest1));
    assert(rest1[0] == p[0]);
    assert(spec_trim_start(rest1) == rest1);
    assert(rest1[rest1.len() - 1] == p[p.len() - 1]);
    assert(spec_trim_end(rest1) == rest1);
    assert(spec_payload(line) == rest1);
    let m = p.len() as int;
    assert(rest1[m] == '\t');
    assert forall|t: int| 0 <= t < m implies !arrow_at(rest1, t) && #[trigger] rest1[t]
        != '\t' by {
        assert(rest1[t] == p[t]);
        if arrow_at(rest1, t) {
            if t + 4 <= m {
                assert(p.subrange(t, t + 4) =~= rest1.subrange(t, t + 4));
                assert(arrow_at(p, t));
            } else {
                let off = m - t;
                assert(rest1.subrange(t, t + 4)[off] == rest1[m]);
                assert(arrow_sep()[off] != '\t');
            }
        }
    }
    lemma_find_sep_scan(rest1, 0, m);
    assert(spec_find_sep(rest1, 0) == Some(m));
    assert(!arrow_at(rest1, m)) by {
        if arrow_at(rest1, m) {
            assert(rest1.subrange(m, m + 4)[0] == rest1[m]);
            assert(arrow_sep()[0] == ' ');
        }
    }
    let old_part = rest1.take(m);
    assert(old_part =~= p);
    let new_part = rest1.skip(m + 1);
    assert(new_part =~= p);
    assert(spec_trim_start(p) == p);
    assert(spec_trim_end(p) == p);
    assert(spec_split_rename(rest1) == Some((p, p)));
    assert(tok2[0] == 'R');
    assert(tok2 != seq!['A'] && tok2 != seq!['D'] && tok2 != seq!['M'] && tok2 != seq!['M', 'M']
        && tok2 != seq!['A', 'M'] && tok2 != seq!['T']) by {
        assert(seq!['A'][0] == 'A' && seq!['D'][0] == 'D' && seq!['M'][0] == 'M' && seq![
            'M',
            'M',
        ][0] == 'M' && seq!['A', 'M'][0] == 'A' && seq!['T'][0] == 'T');
    }
    assert(tok2.len() > 0);
}

/// What the executable parser found in one line.
enum LineParse {
    Skip,
    Rec(GitStatus),
    Bad,
}

/// Parses one diff line, with the meaning `spec_parse_line` gives it.
fn parse_line(line: &str) -> (r: LineParse)
    ensures
        match r {
            LineParse::Skip => spec_parse_line(line@) is Skip,
            LineParse::Rec(g) => spec_parse_line(line@) == LineOutcome::Record(g@),
            LineParse::Bad => spec_parse_line(line@) is Unsupported,
        },
{
    let cv = chars_of(line);
    let n = cv.len();
    if n < 3 {
        return LineParse::Skip;
    }
    let mut a: usize = 0;
    while a < n && is_space(cv[a])
        invariant
            0 <= a <= n,
            n == cv.len(),
            cv@ == line@,
            forall|k: int| 0 <= k < a ==> is_space_char(line@[k]),
        decreases n - a,
    {
        a = a + 1;
    }
    proof {
        crate::strutil::lemma_trim_start_at(line@, a as int);
    }
    let ghost t = line@.subrange(a as int, n as int);
    if a == n {
        assert(spec_first_space(t) == 0);
        return LineParse::Skip;
    }
    let mut e: usize = a;
    while e < n && !is_space(cv[e])
        invariant
            a <= e <= n,
            n == cv.len(),
            cv@ == line@,
            forall|k: int| a <= k < e ==> !is_space_char(line@[k]),
        decreases n - e,
    {
        e = e + 1;
    }
    proof {
        assert(forall|j: int| 0 <= j < e - a ==> !is_space_char(#[trigger] t[j]));
        lemma_first_space_at(t, e - a);
    }
    let ghost tok = spec_token(line@);
    proof {
        assert(tok =~= line@.subrange(a as int, e as int));
    }
    let rest_str = trim_str(line.substring_char(e, n));
    proof {
        assert(t.skip(e - a) =~= line@.subrange(e as int, n as int));
        assert(rest_str@ == spec_payload(line@));
    }
    let tlen = e - a;
    if tlen == 1 && cv[a] == 'A' {
        assert(tok =~= seq!['A']);
        return LineParse::Rec(GitStatus::Added { file: rest_str.to_owned() });
    }
    if tlen == 1 && cv[a] == 'D' {
        assert(tok =~= seq!['D']);
        return LineParse::Rec(GitStatus::Deleted { file: rest_str.to_owned() });
    }
    if tlen == 1 && cv[a] == 'M' {
        assert(tok =~= seq!['M']);
        return LineParse::Rec(GitStatus::Modified { file: rest_str.to_owned() });
    }
    if tlen == 2 && cv[a] == 'M' && cv[a + 1] == 'M' {
        assert(tok =~= seq!['M', 'M']);
        return LineParse::Rec(GitStatus::Modified { file: rest_str.to_owned() });
    }
    if tlen == 2 && cv[a] == 'A' && cv[a + 1] == 'M' {
        assert(tok =~= seq!['A', 'M']);
        return LineParse::Rec(GitStatus::Modified { file: rest_str.to_owned() });
    }
    if tlen == 1 && cv[a] == 'T' {
        assert(tok =~= seq!['T']);
        return LineParse::Rec(GitStatus::FileTypeChanged { file: rest_str.to_owned() });
    }
    proof {
        assert(tok != seq!['A'] && tok != seq!['D'] && tok != seq!['M'] && tok != seq!['M', 'M']
            && tok != seq!['A', 'M'] && tok != seq!['T']) by {
            assert(tok.len() == e - a);
            assert(tok[0] == line@[a as int]);
            if tok.len() == 2 {
                assert(tok[1] == line@[a + 1]);
            }
        }
    }
    if cv[a] == 'R' {
        return parse_rename(rest_str);
    }
    LineParse::Bad
}

/// Splits the payload of a rename line at its first separator; a rename
/// whose two paths are equal is normalized to a modification.
fn parse_rename(rest_str: &str) -> (r: LineParse)
    ensures
        match r {
            LineParse::Bad => spec_split_rename(rest_str@) is None,
            LineParse::Rec(g) => match spec_split_rename(rest_str@) {
                Some((old, new)) => if old == new {
                    g@ == (GitStatusView::Modified { file: new })
                } else {
                    g@ == (GitStatusView::Renamed { old, new })
                },
                None => false,
            },
            LineParse::Skip => false,
        },
{
    let rv = chars_of(rest_str);
    let m = rv.len();
    let mut p: usize = 0;
    while p < m
        invariant
            0 <= p <= m,
            m == rv.len(),
            rv@ == rest_str@,
            spec_find_sep(rest_str@, 0) == spec_find_sep(rest_str@, p as int),
        decreases m - p,
    {
        if m - p >= 4 && rv[p] == ' ' && rv[p + 1] == '-' && rv[p + 2] == '>' && rv[p + 3] == ' ' {
            proof {
                assert(rest_str@.subrange(p as int, p + 4) =~= arrow_sep());
            }
            let old_s = trim_str(rest_str.substring_char(0, p));
            let new_s = trim_str(rest_str.substring_char(p + 4, m));
            proof {
                assert(rest_str@.subrange(0, p as int) =~= rest_str@.take(p as int));
                assert(rest_str@.subrange(p + 4, m as int) =~= rest_str@.skip(p + 4));
            }
            if str_eq(old_s, new_s) {
                return LineParse::Rec(GitStatus::Modified { file: new_s.to_owned() });
            }
            return LineParse::Rec(
                GitStatus::Renamed { old: old_s.to_owned(), new: new_s.to_owned() },
            );
        }
        proof {
            assert(!arrow_at(rest_str@, p as int)) by {
                if arrow_at(rest_str@, p as int) {
                    assert(rest_str@.subrange(p as int, p + 4)[0] == rest_str@[p as int]);
                    assert(rest_str@.subrange(p as int, p + 4)[1] == rest_str@[p + 1]);
                    assert(rest_str@.subrange(p as int, p + 4)[2] == rest_str@[p + 2]);
                    assert(rest_str@.subrange(p as int, p + 4)[3] == rest_str@[p + 3]);
                }
            }
        }
        if rv[p] == '\t' {
            let old_s = trim_str(rest_str.substring_char(0, p));
            let new_s = trim_str(rest_str.substring_char(p + 1, m));
            proof {
                assert(rest_str@.subrange(0, p as int) =~= rest_str@.take(p as int));
                assert(rest_str@.subrange(p + 1, m as int) =~= rest_str@.skip(p + 1));
            }
            if str_eq(old_s, new_s) {
                return LineParse::Rec(GitStatus::Modified { file: new_s.to_owned() });
            }
            return LineParse::Rec(
                GitStatus::Renamed { old: old_s.to_owned(), new: new_s.to_owned() },
            );
        }
        p = p + 1;
    }
    LineParse::Bad
}

/// Joins the records already built with the meaning of the remaining text.
pub open spec fn prepend_records(
    acc: Seq<GitStatusView>,
    r: Result<Seq<GitStatusView>, Seq<char>>,
) -> Result<Seq<GitStatusView>, Seq<char>> {
    match r {
        Ok(rs) => Ok(acc + rs),
        Err(e) => Err(e),
    }
}

/// Parses `name-status` diff text into change records.
///
/// Returns the records of the lines in order, or, for the first line whose
/// status code is not supported, `ParseError` carrying that line.
pub fn parse_git_statuses(text: &str) -> (r: Result<Vec<GitStatus>, ParseError>)
    ensures
        match r {
            Ok(v) => spec_parse(text@) == Ok::<Seq<GitStatusView>, Seq<char>>(views_of(v@)),
            Err(e) => spec_parse(text@) == Err::<Seq<GitStatusView>, Seq<char>>(e@),
        },
{
    let cv = chars_of(text);
    let n = cv.len();
    let mut out: Vec<GitStatus> = Vec::new();
    let mut i: usize = 0;
    while i < n
        invariant
            0 <= i <= n + 1,
            n == cv.len(),
            cv@ == text@,
            prepend_records(views_of(out@), spec_parse_from(text@, i as int)) == spec_parse(
                text@,
            ),
        decreases n - i,
    {
        let mut j: usize = i;
        while j < n && cv[j] != '\n'
            invariant
                i <= j <= n,
                n == cv.len(),
                cv@ == text@,
                forall|k: int| i <= k < j ==> text@[k] != '\n',
            decreases n - j,
        {
            j = j + 1;
        }
        proof {
            lemma_line_end_at(text@, i as int, j as int);
        }
        let line_str = text.substring_char(i, j);
        let ghost rest_meaning = spec_parse_from(text@, j + 1);
        match parse_line(line_str) {
            LineParse::Skip => {},
            LineParse::Rec(g) => {
                let ghost old_out = out@;
                out.push(g);
                proof {
                    assert(views_of(out@) =~= views_of(old_out) + seq![g@]);
                    if rest_meaning is Ok {
                        assert(views_of(old_out) + (seq![g@] + rest_meaning->Ok_0) =~= views_of(
                            out@,
                        ) + rest_meaning->Ok_0);
                    }
                }
            },
            LineParse::Bad => {
                return Err(ParseError { line: line_str.to_owned() });
            },
        }
        if j < n {
            i = j + 1;
        } else {
            assert(spec_parse_from(text@, n + 1) == spec_parse_from(text@, n as int));
            i = n;
        }
    }
    proof {
        assert(views_of(out@) + Seq::<GitStatusView>::empty() =~= views_of(out@));
    }
    Ok(out)
}

} // verus!
