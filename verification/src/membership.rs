//! Mapping changed files to the package directories that own them.
//!
//! A file is owned by the nearest ancestor directory that holds a package
//! manifest.  The index memoizes upward walks so that sibling files
//! short-circuit, and the memo tables are a pure optimization: what a walk
//! returns is fixed by the file set alone, never by earlier walks.  Files
//! that no ancestor up to the repository root owns are collected, and only
//! reported after every changed file has been processed, so that the
//! operator sees all of them at once.

use vstd::prelude::*;

use crate::diff_status::GitStatus;
use crate::diff_status::GitStatusView;
use crate::diff_status::views_of;
use crate::paths::is_eligible;
use crate::paths::lemma_parent_shorter;
use crate::paths::parent_dir;
use crate::paths::spec_eligible;
use crate::paths::spec_parent;
use crate::strutil::str_eq;

verus! {

/// The views of a vector of strings.
pub open spec fn names_of(s: Seq<String>) -> Seq<Seq<char>> {
    Seq::new(s.len(), |i: int| s[i]@)
}

/// Whether `x` occurs in `s`.
pub open spec fn seq_has(s: Seq<Seq<char>>, x: Seq<char>) -> bool {
    exists|i: int| 0 <= i < s.len() && s[i] == x
}

/// `s` with `x` appended, unless already present: a duplicate-free sequence
/// that keeps insertion order.
pub open spec fn seq_insert(s: Seq<Seq<char>>, x: Seq<char>) -> Seq<Seq<char>> {
    if seq_has(s, x) {
        s
    } else {
        s.push(x)
    }
}

/// After inserting `x`, the sequence holds `x`.
pub proof fn lemma_seq_insert_has(s: Seq<Seq<char>>, x: Seq<char>)
    ensures
        seq_has(seq_insert(s, x), x),
{
    if !seq_has(s, x) {
        assert(seq_insert(s, x)[s.len() as int] == x);
    }
}

/// Inserting keeps what was already there.
pub proof fn lemma_seq_insert_monotone(s: Seq<Seq<char>>, x: Seq<char>, y: Seq<char>)
    requires
        seq_has(s, y),
    ensures
        seq_has(seq_insert(s, x), y),
{
    let i = choose|i: int| 0 <= i < s.len() && s[i] == y;
    assert(seq_insert(s, x)[i] == y);
}

/// Appends `x` unless a string with the same characters is already present.
pub(crate) fn insert_name(v: &mut Vec<String>, x: &str)
    ensures
        names_of(final(v)@) == seq_insert(names_of(old(v)@), x@),
{
    let n = v.len();
    let mut i: usize = 0;
    while i < n
        invariant
            0 <= i <= n,
            n == v.len(),
            forall|k: int| 0 <= k < i ==> v@[k]@ != x@,
        decreases n - i,
    {
        if str_eq(v[i].as_str(), x) {
            proof {
                assert(names_of(v@)[i as int] == x@);
                assert(seq_insert(names_of(v@), x@) =~= names_of(v@));
            }
            return ;
        }
        i = i + 1;
    }
    proof {
        assert(forall|k: int| 0 <= k < names_of(v@).len() ==> names_of(v@)[k] != x@);
    }
    let ghost before = v@;
    v.push(x.to_owned());
    proof {
        assert(names_of(v@) =~= names_of(before).push(x@));
    }
}

/// Whether some string of `v` holds the characters `x`.
pub(crate) fn contains_name(v: &Vec<String>, x: &str) -> (r: bool)
    ensures
        r == seq_has(names_of(v@), x@),
{
    let n = v.len();
    let mut i: usize = 0;
    while i < n
        invariant
            0 <= i <= n,
            n == v.len(),
            forall|k: int| 0 <= k < i ==> v@[k]@ != x@,
        decreases n - i,
    {
        if str_eq(v[i].as_str(), x) {
            proof {
                assert(names_of(v@)[i as int] == x@);
            }
            return true;
        }
        i = i + 1;
    }
    proof {
        assert(forall|k: int| 0 <= k < names_of(v@).len() ==> names_of(v@)[k] != x@);
    }
    false
}

/// The directories of the repository that hold a package manifest: the
/// slice of the file tree that the membership walk consults.
pub struct ManifestDirSet {
    pub dirs: Vec<String>,
}

impl ManifestDirSet {
    /// Whether directory `d` holds a manifest.
    pub open spec fn spec_has(self, d: Seq<char>) -> bool {
        seq_has(names_of(self.dirs@), d)
    }

    /// An empty file tree.
    pub fn new() -> (r: Self)
        ensures
            forall|d: Seq<char>| !r.spec_has(d),
    {
        ManifestDirSet { dirs: Vec::new() }
    }

    /// Records that directory `d` holds a manifest.
    pub fn insert(&mut self, d: String)
        ensures
            forall|x: Seq<char>| final(self).spec_has(x) <==> (old(self).spec_has(x) || x == d@),
    {
        let ghost olds = names_of(self.dirs@);
        self.dirs.push(d);
        proof {
            let news = names_of(self.dirs@);
            assert(news[olds.len() as int] == d@);
            assert forall|x: Seq<char>| self.spec_has(x) implies (seq_has(olds, x) || x == d@) by {
                let i = choose|i: int| 0 <= i < news.len() && news[i] == x;
                if i < olds.len() {
                    assert(olds[i] == x);
                }
            }
            assert forall|x: Seq<char>| seq_has(olds, x) implies self.spec_has(x) by {
                let i = choose|i: int| 0 <= i < olds.len() && olds[i] == x;
                assert(news[i] == x);
            }
        }
    }

    /// Whether directory `d` holds a manifest.
    pub fn has_manifest(&self, d: &str) -> (r: bool)
        ensures
            r == self.spec_has(d@),
    {
        contains_name(&self.dirs, d)
    }
}

/// The package directory owning directory `d`: the nearest of `d` and its
/// ancestors that holds a manifest, up to the repository root.
pub open spec fn spec_owner_dir(fs: ManifestDirSet, d: Seq<char>) -> Option<Seq<char>>
    decreases d.len(),
    via spec_owner_dir_decreases
{
    if fs.spec_has(d) {
        Some(d)
    } else if d.len() == 0 {
        None
    } else {
        spec_owner_dir(fs, spec_parent(d))
    }
}

#[via_fn]
proof fn spec_owner_dir_decreases(fs: ManifestDirSet, d: Seq<char>) {
    if !fs.spec_has(d) && d.len() > 0 {
        lemma_parent_shorter(d);
    }
}

/// The package directory owning file `path`, if any.
pub open spec fn spec_owner(fs: ManifestDirSet, path: Seq<char>) -> Option<Seq<char>> {
    spec_owner_dir(fs, spec_parent(path))
}

/// The memoized file-to-package index of one run.
///
/// `package_dirs` memoizes directories with a known owning package and
/// `no_package_dirs` those known to have none; `found_packages` and
/// `unowned_files` accumulate, in first-seen order and without duplicates,
/// the answers for the files resolved so far.
pub struct PackageMembershipIndex {
    package_dirs: Vec<(String, String)>,
    no_package_dirs: Vec<String>,
    unowned_files: Vec<String>,
    found_packages: Vec<String>,
}

impl PackageMembershipIndex {
    /// The owning package directories found so far.
    pub closed spec fn packages(self) -> Seq<Seq<char>> {
        names_of(self.found_packages@)
    }

    /// The eligible files found to lie outside every package.
    pub closed spec fn unowned(self) -> Seq<Seq<char>> {
        names_of(self.unowned_files@)
    }

    /// The memo tables agree with the file tree: they only ever cache what
    /// a fresh walk would find.
    pub closed spec fn wf(self, fs: ManifestDirSet) -> bool {
        &&& forall|i: int|
            0 <= i < self.package_dirs@.len() ==> spec_owner_dir(
                fs,
                #[trigger] self.package_dirs@[i].0@,
            ) == Some(self.package_dirs@[i].1@)
        &&& forall|i: int|
            0 <= i < self.no_package_dirs@.len() ==> spec_owner_dir(
                fs,
                #[trigger] self.no_package_dirs@[i]@,
            ) is None
    }

    /// An empty index, valid for any file tree.
    pub fn new() -> (r: Self)
        ensures
            forall|fs: ManifestDirSet| r.wf(fs),
            r.packages() == Seq::<Seq<char>>::empty(),
            r.unowned() == Seq::<Seq<char>>::empty(),
    {
        let r = PackageMembershipIndex {
            package_dirs: Vec::new(),
            no_package_dirs: Vec::new(),
            unowned_files: Vec::new(),
            found_packages: Vec::new(),
        };
        proof {
            assert(r.packages() =~= Seq::<Seq<char>>::empty());
            assert(r.unowned() =~= Seq::<Seq<char>>::empty());
        }
        r
    }

    /// Looks `d` up in the package memo.
    fn lookup_package(&self, d: &str) -> (r: Option<String>)
        ensures
            match r {
                Some(p) => exists|i: int|
                    0 <= i < self.package_dirs@.len() && self.package_dirs@[i].0@ == d@
                        && self.package_dirs@[i].1@ == p@,
                None => true,
            },
    {
        let n = self.package_dirs.len();
        let mut i: usize = 0;
        while i < n
            invariant
                0 <= i <= n,
                n == self.package_dirs@.len(),
            decreases n - i,
        {
            if str_eq(self.package_dirs[i].0.as_str(), d) {
                return Some(self.package_dirs[i].1.clone());
            }
            i = i + 1;
        }
        None
    }

    /// Resolves one changed file against the file tree `fs`.
    ///
    /// A file that is neither a manifest nor a source file is ignored.  For
    /// an eligible file the walk finds `spec_owner(fs, path)`, whatever the
    /// memo tables held before: a hit may only short-circuit the walk, not
    /// change its answer.  The owning package joins `packages()`, or the
    /// file joins `unowned()`; both keep first-seen order, without
    /// duplicates.
    pub fn get_cargo_package_of_file(&mut self, path: &str, fs: &ManifestDirSet)
        requires
            old(self).wf(*fs),
        ensures
            final(self).wf(*fs),
            !spec_eligible(path@) ==> final(self).packages() == old(self).packages()
                && final(self).unowned() == old(self).unowned(),
            spec_eligible(path@) ==> match spec_owner(*fs, path@) {
                Some(pkg) => final(self).packages() == seq_insert(old(self).packages(), pkg)
                    && final(self).unowned() == old(self).unowned(),
                None => final(self).unowned() == seq_insert(old(self).unowned(), path@)
                    && final(self).packages() == old(self).packages(),
            },
    {
        if !is_eligible(path) {
            return ;
        }
        let first = match parent_dir(path) {
            Some(d) => d,
            None => {
                proof {
                    reveal_strlit("Cargo.toml");
                    assert(false);
                }
                path
            },
        };
        let mut cur: &str = first;
        let mut walked: Vec<String> = Vec::new();
        loop
            invariant_except_break
                self.wf(*fs),
                spec_owner(*fs, path@) == spec_owner_dir(*fs, cur@),
                forall|i: int|
                    0 <= i < walked@.len() ==> spec_owner_dir(*fs, #[trigger] walked@[i]@)
                        == spec_owner_dir(*fs, cur@),
                self.packages() == old(self).packages(),
                self.unowned() == old(self).unowned(),
            ensures
                self.wf(*fs),
                match spec_owner(*fs, path@) {
                    Some(pkg) => self.packages() == seq_insert(old(self).packages(), pkg)
                        && self.unowned() == old(self).unowned(),
                    None => self.unowned() == seq_insert(old(self).unowned(), path@)
                        && self.packages() == old(self).packages(),
                },
            decreases cur@.len(),
        {
            walked.push(cur.to_owned());
            if contains_name(&self.no_package_dirs, cur) {
                self.record_unowned(&walked, path, fs);
                break ;
            }
            match self.lookup_package(cur) {
                Some(pkg) => {
                    self.record_package(&walked, pkg.as_str(), fs);
                    break ;
                },
                None => {},
            }
            if fs.has_manifest(cur) {
                let pkg = cur.to_owned();
                self.record_package(&walked, pkg.as_str(), fs);
                break ;
            }
            match parent_dir(cur) {
                Some(p) => {
                    proof {
                        lemma_parent_shorter(cur@);
                        assert(spec_owner_dir(*fs, cur@) == spec_owner_dir(*fs, spec_parent(cur@)));
                    }
                    cur = p;
                },
                None => {
                    proof {
                        assert(spec_owner_dir(*fs, cur@) is None);
                    }
                    self.record_unowned(&walked, path, fs);
                    break ;
                },
            }
        }
    }

    /// Writes a finished walk back into the memo: every directory it
    /// visited is owned by `pkg`.
    fn record_package(&mut self, walked: &Vec<String>, pkg: &str, fs: &ManifestDirSet)
        requires
            old(self).wf(*fs),
            forall|i: int|
                0 <= i < walked@.len() ==> spec_owner_dir(*fs, #[trigger] walked@[i]@) == Some(
                    pkg@,
                ),
        ensures
            final(self).wf(*fs),
            final(self).packages() == seq_insert(old(self).packages(), pkg@),
            final(self).unowned() == old(self).unowned(),
    {
        let n = walked.len();
        let mut i: usize = 0;
        while i < n
            invariant
                0 <= i <= n,
                n == walked@.len(),
                self.wf(*fs),
                forall|k: int|
                    0 <= k < walked@.len() ==> spec_owner_dir(*fs, #[trigger] walked@[k]@) == Some(
                        pkg@,
                    ),
                self.packages() == old(self).packages(),
                self.unowned() == old(self).unowned(),
                self.found_packages@ == old(self).found_packages@,
                self.unowned_files@ == old(self).unowned_files@,
            decreases n - i,
        {
            self.package_dirs.push((walked[i].clone(), pkg.to_owned()));
            i = i + 1;
        }
        insert_name(&mut self.found_packages, pkg);
    }

    /// Writes a failed walk back into the memo: no directory it visited has
    /// an owning package, and the file itself is recorded as unowned.
    fn record_unowned(&mut self, walked: &Vec<String>, path: &str, fs: &ManifestDirSet)
        requires
            old(self).wf(*fs),
            forall|i: int|
                0 <= i < walked@.len() ==> spec_owner_dir(*fs, #[trigger] walked@[i]@) is None,
        ensures
            final(self).wf(*fs),
            final(self).packages() == old(self).packages(),
            final(self).unowned() == seq_insert(old(self).unowned(), path@),
    {
        let n = walked.len();
        let mut i: usize = 0;
        while i < n
            invariant
                0 <= i <= n,
                n == walked@.len(),
                self.wf(*fs),
                forall|k: int|
                    0 <= k < walked@.len() ==> spec_owner_dir(*fs, #[trigger] walked@[k]@) is None,
                self.packages() == old(self).packages(),
                self.unowned() == old(self).unowned(),
                self.found_packages@ == old(self).found_packages@,
                self.unowned_files@ == old(self).unowned_files@,
            decreases n - i,
        {
            self.no_package_dirs.push(walked[i].clone());
            i = i + 1;
        }
        insert_name(&mut self.unowned_files, path);
    }

    /// Hands out what the pass accumulated: the owning package directories
    /// and the unowned files, both in first-seen order.
    pub fn into_results(self) -> (r: (Vec<String>, Vec<String>))
        ensures
            names_of(r.0@) == self.packages(),
            names_of(r.1@) == self.unowned(),
    {
        (self.found_packages, self.unowned_files)
    }
}

/// One or more changed files lie outside every package of the workspace;
/// `files` lists every offending path, so that all can be fixed in one pass.
#[derive(Clone, Debug, PartialEq, Eq)]
pub struct MembershipError {
    pub files: Vec<String>,
}

impl View for MembershipError {
    type V = Seq<Seq<char>>;

    open spec fn view(&self) -> Seq<Seq<char>> {
        names_of(self.files@)
    }
}

/// The paths one change record sends through the membership walk, in
/// processing order: the record's surviving path first and, for a rename,
/// then the path it removed.
pub open spec fn spec_record_paths(v: GitStatusView) -> Seq<Seq<char>> {
    match v {
        GitStatusView::Added { file } => seq![file],
        GitStatusView::Deleted { file } => seq![file],
        GitStatusView::FileTypeChanged { file } => seq![file],
        GitStatusView::Modified { file } => seq![file],
        GitStatusView::Renamed { old, new } => seq![new, old],
    }
}

/// The paths a whole diff sends through the membership walk, in order.
pub open spec fn spec_changed_paths(rs: Seq<GitStatusView>) -> Seq<Seq<char>>
    decreases rs.len(),
{
    if rs.len() == 0 {
        seq![]
    } else {
        spec_record_paths(rs[0]) + spec_changed_paths(rs.drop_first())
    }
}

/// One step of the membership pass, on the pair of what it accumulates:
/// the packages found and the unowned files.
pub open spec fn spec_resolve_one(
    fs: ManifestDirSet,
    st: (Seq<Seq<char>>, Seq<Seq<char>>),
    p: Seq<char>,
) -> (Seq<Seq<char>>, Seq<Seq<char>>) {
    if !spec_eligible(p) {
        st
    } else {
        match spec_owner(fs, p) {
            Some(pkg) => (seq_insert(st.0, pkg), st.1),
            None => (st.0, seq_insert(st.1, p)),
        }
    }
}

/// The membership pass over a sequence of paths.
pub open spec fn spec_resolve_paths(
    fs: ManifestDirSet,
    st: (Seq<Seq<char>>, Seq<Seq<char>>),
    ps: Seq<Seq<char>>,
) -> (Seq<Seq<char>>, Seq<Seq<char>>)
    decreases ps.len(),
{
    if ps.len() == 0 {
        st
    } else {
        spec_resolve_paths(fs, spec_resolve_one(fs, st, ps[0]), ps.drop_first())
    }
}

/// What the membership pass over a whole diff accumulates.
pub open spec fn spec_membership(fs: ManifestDirSet, rs: Seq<GitStatusView>) -> (
    Seq<Seq<char>>,
    Seq<Seq<char>>,
) {
    spec_resolve_paths(fs, (seq![], seq![]), spec_changed_paths(rs))
}

proof fn lemma_changed_paths_push(rs: Seq<GitStatusView>, v: GitStatusView)
    ensures
        spec_changed_paths(rs.push(v)) == spec_changed_paths(rs) + spec_record_paths(v),
    decreases rs.len(),
{
    if rs.len() == 0 {
        assert(rs.push(v)[0] == v);
        assert(rs.push(v).drop_first() =~= Seq::<GitStatusView>::empty());
        assert(spec_record_paths(v) + spec_changed_paths(Seq::<GitStatusView>::empty())
            =~= spec_changed_paths(rs) + spec_record_paths(v));
    } else {
        assert(rs.push(v)[0] == rs[0]);
        assert(rs.push(v).drop_first() =~= rs.drop_first().push(v));
        lemma_changed_paths_push(rs.drop_first(), v);
        assert(spec_record_paths(rs[0]) + (spec_changed_paths(rs.drop_first())
            + spec_record_paths(v)) =~= (spec_record_paths(rs[0]) + spec_changed_paths(
            rs.drop_first(),
        )) + spec_record_paths(v));
    }
}

proof fn lemma_resolve_append(
    fs: ManifestDirSet,
    st: (Seq<Seq<char>>, Seq<Seq<char>>),
    a: Seq<Seq<char>>,
    b: Seq<Seq<char>>,
)
    ensures
        spec_resolve_paths(fs, st, a + b) == spec_resolve_paths(
            fs,
            spec_resolve_paths(fs, st, a),
            b,
        ),
    decreases a.len(),
{
    if a.len() == 0 {
        assert(a + b =~= b);
    } else {
        assert((a + b)[0] == a[0]);
        assert((a + b).drop_first() =~= a.drop_first() + b);
        lemma_resolve_append(fs, spec_resolve_one(fs, st, a[0]), a.drop_first(), b);
    }
}

/// Resolves every changed file of a diff and reports the owning packages.
///
/// The records are processed in order; a rename contributes its new path
/// and then its old one.  When every eligible file is owned, the result is
/// the owning package directories in first-seen order without duplicates;
/// otherwise it is a `MembershipError` listing every file that no package
/// owns — membership failures are gathered, not reported one at a time.
pub fn resolve_changed_packages(statuses: &Vec<GitStatus>, fs: &ManifestDirSet) -> (r: Result<
    Vec<String>,
    MembershipError,
>)
    ensures
        ({
            let st = spec_membership(*fs, views_of(statuses@));
            match r {
                Ok(pkgs) => names_of(pkgs@) == st.0 && st.1.len() == 0,
                Err(e) => e@ == st.1 && st.1.len() > 0,
            }
        }),
{
    let mut index = PackageMembershipIndex::new();
    let n = statuses.len();
    let mut i: usize = 0;
    while i < n
        invariant
            0 <= i <= n,
            n == statuses@.len(),
            index.wf(*fs),
            (index.packages(), index.unowned()) == spec_resolve_paths(
                *fs,
                (seq![], seq![]),
                spec_changed_paths(views_of(statuses@).take(i as int)),
            ),
        decreases n - i,
    {
        let ghost prefix = views_of(statuses@).take(i as int);
        let ghost st_before = (index.packages(), index.unowned());
        let ghost v = statuses@[i as int]@;
        match &statuses[i] {
            GitStatus::Added { file } => index.get_cargo_package_of_file(file.as_str(), fs),
            GitStatus::Deleted { file } => index.get_cargo_package_of_file(file.as_str(), fs),
            GitStatus::FileTypeChanged { file } => index.get_cargo_package_of_file(
                file.as_str(),
                fs,
            ),
            GitStatus::Modified { file } => index.get_cargo_package_of_file(file.as_str(), fs),
            GitStatus::Renamed { old, new } => {
                index.get_cargo_package_of_file(new.as_str(), fs);
                index.get_cargo_package_of_file(old.as_str(), fs);
            },
        }
        proof {
            reveal_with_fuel(spec_resolve_paths, 3);
            lemma_changed_paths_push(prefix, v);
            lemma_resolve_append(*fs, (seq![], seq![]), spec_changed_paths(prefix),
                spec_record_paths(v));
            assert(views_of(statuses@).take(i + 1) =~= prefix.push(v));
            let ps = spec_record_paths(v);
            match v {
                GitStatusView::Renamed { old, new } => {
                    assert(ps[0] == new);
                    assert(ps.drop_first()[0] == old);
                    assert(ps.drop_first().drop_first() =~= Seq::<Seq<char>>::empty());
                    assert((index.packages(), index.unowned()) == spec_resolve_one(
                        *fs,
                        spec_resolve_one(*fs, st_before, new),
                        old,
                    ));
                },
                GitStatusView::Added { file } => {
                    assert(ps[0] == file);
                    assert(ps.drop_first() =~= Seq::<Seq<char>>::empty());
                    assert((index.packages(), index.unowned()) == spec_resolve_one(
                        *fs,
                        st_before,
                        file,
                    ));
                },
                GitStatusView::Deleted { file } => {
                    assert(ps[0] == file);
                    assert(ps.drop_first() =~= Seq::<Seq<char>>::empty());
                    assert((index.packages(), index.unowned()) == spec_resolve_one(
                        *fs,
                        st_before,
                        file,
                    ));
                },
                GitStatusView::FileTypeChanged { file } => {
                    assert(ps[0] == file);
                    assert(ps.drop_first() =~= Seq::<Seq<char>>::empty());
                    assert((index.packages(), index.unowned()) == spec_resolve_one(
                        *fs,
                        st_before,
                        file,
                    ));
                },
                GitStatusView::Modified { file } => {
                    assert(ps[0] == file);
                    assert(ps.drop_first() =~= Seq::<Seq<char>>::empty());
                    assert((index.packages(), index.unowned()) == spec_resolve_one(
                        *fs,
                        st_before,
                        file,
                    ));
                },
            }
        }
        i = i + 1;
    }
    proof {
        assert(views_of(statuses@).take(n as int) =~= views_of(statuses@));
    }
    let (packages, unowned) = index.into_results();
    if unowned.len() == 0 {
        Ok(packages)
    } else {
        Err(MembershipError { files: unowned })
    }
}

/// Whether the membership pass would leave `st` as it is on seeing `p`
/// again: everything `p` contributes is already recorded.
pub open spec fn spec_settled(
    fs: ManifestDirSet,
    st: (Seq<Seq<char>>, Seq<Seq<char>>),
    p: Seq<char>,
) -> bool {
    spec_resolve_one(fs, st, p) == st
}

proof fn lemma_settled_after_one(
    fs: ManifestDirSet,
    st: (Seq<Seq<char>>, Seq<Seq<char>>),
    p: Seq<char>,
)
    ensures
        spec_settled(fs, spec_resolve_one(fs, st, p), p),
{
    if spec_eligible(p) {
        match spec_owner(fs, p) {
            Some(pkg) => {
                lemma_seq_insert_has(st.0, pkg);
            },
            None => {
                lemma_seq_insert_has(st.1, p);
            },
        }
    }
}

proof fn lemma_settled_step(
    fs: ManifestDirSet,
    st: (Seq<Seq<char>>, Seq<Seq<char>>),
    p: Seq<char>,
    q: Seq<char>,
)
    requires
        spec_settled(fs, st, p),
    ensures
        spec_settled(fs, spec_resolve_one(fs, st, q), p),
{
    if spec_eligible(p) {
        match spec_owner(fs, p) {
            Some(pkg) => {
                assert(seq_has(st.0, pkg)) by {
                    if !seq_has(st.0, pkg) {
                        assert(spec_resolve_one(fs, st, p).0.len() == st.0.len() + 1);
                    }
                }
                if spec_eligible(q) {
                    match spec_owner(fs, q) {
                        Some(qp) => {
                            lemma_seq_insert_monotone(st.0, qp, pkg);
                        },
                        None => {},
                    }
                }
            },
            None => {
                assert(seq_has(st.1, p)) by {
                    if !seq_has(st.1, p) {
                        assert(spec_resolve_one(fs, st, p).1.len() == st.1.len() + 1);
                    }
                }
                if spec_eligible(q) {
                    match spec_owner(fs, q) {
                        Some(_) => {},
                        None => {
                            lemma_seq_insert_monotone(st.1, q, p);
                        },
                    }
                }
            },
        }
    }
}

proof fn lemma_settled_fold(
    fs: ManifestDirSet,
    st: (Seq<Seq<char>>, Seq<Seq<char>>),
    p: Seq<char>,
    qs: Seq<Seq<char>>,
)
    requires
        spec_settled(fs, st, p),
    ensures
        spec_settled(fs, spec_resolve_paths(fs, st, qs), p),
    decreases qs.len(),
{
    if qs.len() > 0 {
        lemma_settled_step(fs, st, p, qs[0]);
        lemma_settled_fold(fs, spec_resolve_one(fs, st, qs[0]), p, qs.drop_first());
    }
}

proof fn lemma_all_settled(
    fs: ManifestDirSet,
    st: (Seq<Seq<char>>, Seq<Seq<char>>),
    ps: Seq<Seq<char>>,
)
    ensures
        forall|i: int|
            0 <= i < ps.len() ==> spec_settled(fs, spec_resolve_paths(fs, st, ps), #[trigger] ps[i]),
    decreases ps.len(),
{
    if ps.len() > 0 {
        let st1 = spec_resolve_one(fs, st, ps[0]);
        lemma_settled_after_one(fs, st, ps[0]);
        lemma_settled_fold(fs, st1, ps[0], ps.drop_first());
        lemma_all_settled(fs, st1, ps.drop_first());
        assert forall|i: int|
            0 <= i < ps.len() implies spec_settled(
            fs,
            spec_resolve_paths(fs, st, ps),
            #[trigger] ps[i],
        ) by {
            if i > 0 {
                assert(ps.drop_first()[i - 1] == ps[i]);
            }
        }
    }
}

proof fn lemma_settled_run(
    fs: ManifestDirSet,
    st: (Seq<Seq<char>>, Seq<Seq<char>>),
    ps: Seq<Seq<char>>,
)
    requires
        forall|i: int| 0 <= i < ps.len() ==> spec_settled(fs, st, #[trigger] ps[i]),
    ensures
        spec_resolve_paths(fs, st, ps) == st,
    decreases ps.len(),
{
    if ps.len() > 0 {
        assert(forall|i: int|
            0 <= i < ps.drop_first().len() ==> spec_settled(
                fs,
                st,
                #[trigger] ps.drop_first()[i],
            ));
        lemma_settled_run(fs, st, ps.drop_first());
    }
}

/// Memoization is a pure optimization: running the membership pass a second
/// time over the same paths, against the same file tree, leaves the
/// packages found and the unowned files exactly as the first pass left
/// them.
pub proof fn lemma_membership_idempotent(
    fs: ManifestDirSet,
    st: (Seq<Seq<char>>, Seq<Seq<char>>),
    ps: Seq<Seq<char>>,
)
    ensures
        spec_resolve_paths(fs, spec_resolve_paths(fs, st, ps), ps) == spec_resolve_paths(
            fs,
            st,
            ps,
        ),
{
    lemma_all_settled(fs, st, ps);
    lemma_settled_run(fs, spec_resolve_paths(fs, st, ps), ps);
}

} // verus!
