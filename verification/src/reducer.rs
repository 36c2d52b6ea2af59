//! Reducing the changed-package set with the dependency graph.
//!
//! Verifying a package transitively re-verifies its dependencies, so a
//! changed package that another changed package depends on — directly or
//! through the closure of internal dependencies — need not be checked on
//! its own.  The reducer walks the graph breadth-first from the changed
//! packages, loading each internal package's manifest only when first
//! needed: the walk itself runs here, and a driver loop answers each
//! `NeedManifest` request with the manifest's dependency names.

use vstd::prelude::*;

use crate::manifest::PackageManifest;
use crate::manifest::WorkspaceManifest;
use crate::membership::contains_name;
use crate::membership::insert_name;
use crate::membership::names_of;
use crate::membership::seq_has;
use crate::membership::seq_insert;
use crate::strutil::str_eq;

verus! {

/// Whether `chain` is a dependency chain: it starts at a seed, and each
/// later member is an internal package that the member before it depends
/// on.
pub open spec fn spec_dep_chain(
    graph: Map<Seq<char>, Seq<Seq<char>>>,
    internal: Set<Seq<char>>,
    seeds: Set<Seq<char>>,
    chain: Seq<Seq<char>>,
) -> bool {
    &&& chain.len() > 0
    &&& seeds.contains(chain[0])
    &&& forall|i: int|
        0 < i < chain.len() ==> graph.dom().contains(#[trigger] chain[i - 1])
            && graph[chain[i - 1]].contains(chain[i]) && internal.contains(chain[i])
}

/// Whether `p` belongs to the closure: the packages reachable from the
/// seed set through internal dependency edges.
pub open spec fn spec_reaches(
    graph: Map<Seq<char>, Seq<Seq<char>>>,
    internal: Set<Seq<char>>,
    seeds: Set<Seq<char>>,
    p: Seq<char>,
) -> bool {
    exists|chain: Seq<Seq<char>>|
        #[trigger] spec_dep_chain(graph, internal, seeds, chain) && chain.last() == p
}

/// A seed lies in the closure.
proof fn lemma_reach_seed(
    graph: Map<Seq<char>, Seq<Seq<char>>>,
    internal: Set<Seq<char>>,
    seeds: Set<Seq<char>>,
    p: Seq<char>,
)
    requires
        seeds.contains(p),
    ensures
        spec_reaches(graph, internal, seeds, p),
{
    let chain = seq![p];
    assert(spec_dep_chain(graph, internal, seeds, chain) && chain.last() == p);
}

/// Whether some closure member depends on `x` — if so, checking `x` on its
/// own is redundant.
pub open spec fn spec_eliminated(
    graph: Map<Seq<char>, Seq<Seq<char>>>,
    internal: Set<Seq<char>>,
    seeds: Set<Seq<char>>,
    x: Seq<char>,
) -> bool {
    exists|p: Seq<char>|
        #[trigger] spec_reaches(graph, internal, seeds, p) && graph.dom().contains(p)
            && graph[p].contains(x)
}

/// The minimal top-level target set: the changed packages, in their given
/// order, without those that some closure member depends on.  The closure
/// and the elimination are defined over sets, so the result does not
/// depend on any traversal order.
pub open spec fn spec_targets(
    graph: Map<Seq<char>, Seq<Seq<char>>>,
    internal: Set<Seq<char>>,
    seeds: Seq<Seq<char>>,
) -> Seq<Seq<char>> {
    seeds.filter(|x: Seq<char>| !spec_eliminated(graph, internal, seeds.to_set(), x))
}

/// The dependency map that a list of `(package, dependency names)` entries
/// builds up; a later entry for the same package wins.
pub open spec fn spec_dep_map(s: Seq<(String, Vec<String>)>) -> Map<Seq<char>, Seq<Seq<char>>>
    decreases s.len(),
{
    if s.len() == 0 {
        Map::empty()
    } else {
        spec_dep_map(s.drop_last()).insert(s.last().0@, names_of(s.last().1@))
    }
}

/// The dependency names recorded for `k`, with a later entry winning.
pub open spec fn spec_dep_get(s: Seq<(String, Vec<String>)>, k: Seq<char>) -> Option<
    Seq<Seq<char>>,
>
    decreases s.len(),
{
    if s.len() == 0 {
        None
    } else if s.last().0@ == k {
        Some(names_of(s.last().1@))
    } else {
        spec_dep_get(s.drop_last(), k)
    }
}

proof fn lemma_dep_get_map(s: Seq<(String, Vec<String>)>, k: Seq<char>)
    ensures
        match spec_dep_get(s, k) {
            Some(v) => spec_dep_map(s).dom().contains(k) && spec_dep_map(s)[k] == v,
            None => !spec_dep_map(s).dom().contains(k),
        },
    decreases s.len(),
{
    if s.len() > 0 && s.last().0@ != k {
        lemma_dep_get_map(s.drop_last(), k);
    }
}

/// The directory recorded for internal package `k`, with a later entry
/// winning.
pub open spec fn spec_path_get(s: Seq<(String, String)>, k: Seq<char>) -> Option<Seq<char>>
    decreases s.len(),
{
    if s.len() == 0 {
        None
    } else if s.last().0@ == k {
        Some(s.last().1@)
    } else {
        spec_path_get(s.drop_last(), k)
    }
}

/// Looks a package's recorded dependency names up, with a later entry
/// winning, as `spec_dep_get` does.
fn dep_get<'a>(s: &'a Vec<(String, Vec<String>)>, k: &str) -> (r: Option<&'a Vec<String>>)
    ensures
        match r {
            Some(v) => spec_dep_get(s@, k@) == Some(names_of(v@)),
            None => spec_dep_get(s@, k@) is None,
        },
{
    let n = s.len();
    let mut j: usize = n;
    proof {
        assert(s@.take(n as int) =~= s@);
    }
    while j > 0
        invariant
            0 <= j <= n,
            n == s@.len(),
            spec_dep_get(s@, k@) == spec_dep_get(s@.take(j as int), k@),
        decreases j,
    {
        proof {
            assert(s@.take(j as int).last() == s@[j - 1]);
            assert(s@.take(j as int).drop_last() =~= s@.take(j - 1));
        }
        if str_eq(s[j - 1].0.as_str(), k) {
            return Some(&s[j - 1].1);
        }
        j = j - 1;
    }
    proof {
        assert(s@.take(0) =~= Seq::<(String, Vec<String>)>::empty());
    }
    None
}

/// Looks an internal package's directory up, with a later entry winning,
/// as `spec_path_get` does.
fn path_get(s: &Vec<(String, String)>, k: &str) -> (r: Option<String>)
    ensures
        match r {
            Some(v) => spec_path_get(s@, k@) == Some(v@),
            None => spec_path_get(s@, k@) is None,
        },
{
    let n = s.len();
    let mut j: usize = n;
    proof {
        assert(s@.take(n as int) =~= s@);
    }
    while j > 0
        invariant
            0 <= j <= n,
            n == s@.len(),
            spec_path_get(s@, k@) == spec_path_get(s@.take(j as int), k@),
        decreases j,
    {
        proof {
            assert(s@.take(j as int).last() == s@[j - 1]);
            assert(s@.take(j as int).drop_last() =~= s@.take(j - 1));
        }
        if str_eq(s[j - 1].0.as_str(), k) {
            return Some(s[j - 1].1.clone());
        }
        j = j - 1;
    }
    proof {
        assert(s@.take(0) =~= Seq::<(String, String)>::empty());
    }
    None
}

/// What one `advance` call asks of the driver.
pub enum ReducerStep {
    /// A package was taken off the queue and folded into the closure; call
    /// `advance` again.
    Working,
    /// The manifest of internal package `name`, in directory `path`, is
    /// needed before the walk can go on: read it and hand its dependency
    /// names to `supply_manifest`, then call `advance` again.
    NeedManifest { name: String, path: String },
    /// The closure is complete; `targets` yields the result.
    Done,
}

/// The breadth-first walk of the dependency graph, with the manifests
/// loaded so far.
pub struct ClosureReducer {
    changed_names: Vec<String>,
    queue: Vec<String>,
    analyzed: Vec<String>,
    deps_of: Vec<(String, Vec<String>)>,
    changed_dirs: Vec<(String, String)>,
    override_paths: Vec<(String, String)>,
}

impl ClosureReducer {
    /// The changed package names the walk was seeded with, in input order.
    pub closed spec fn seeds(self) -> Seq<Seq<char>> {
        names_of(self.changed_names@)
    }

    /// The dependency graph as loaded so far.
    pub closed spec fn graph(self) -> Map<Seq<char>, Seq<Seq<char>>> {
        spec_dep_map(self.deps_of@)
    }

    /// The names the workspace declares as internal packages, together
    /// with the changed packages themselves.
    pub closed spec fn internal(self) -> Set<Seq<char>> {
        Set::new(
            |k: Seq<char>|
                spec_path_get(self.override_paths@, k) is Some || spec_path_get(
                    self.changed_dirs@,
                    k,
                ) is Some,
        )
    }

    /// The directory recorded for internal package `k`: the workspace's
    /// path override where one is declared, else the changed package's own
    /// directory.
    pub closed spec fn path_of(self, k: Seq<char>) -> Option<Seq<char>> {
        match spec_path_get(self.override_paths@, k) {
            Some(p) => Some(p),
            None => spec_path_get(self.changed_dirs@, k),
        }
    }

    /// The names still waiting to be folded into the closure, in order.
    pub closed spec fn queued(self) -> Seq<Seq<char>> {
        names_of(self.queue@)
    }

    /// The names already folded into the closure, in analysis order.
    pub closed spec fn analyzed_names(self) -> Seq<Seq<char>> {
        names_of(self.analyzed@)
    }

    /// One name per recorded internal-package entry, duplicates kept.
    closed spec fn key_names(self) -> Seq<Seq<char>> {
        key_seq(self.changed_dirs@) + key_seq(self.override_paths@)
    }

    /// How many recorded internal-package entries name a package not yet
    /// analyzed: with the queue's length and the loading of the queue's
    /// head, a measure that every step of the walk decreases.
    pub closed spec fn pending(self) -> nat {
        spec_unanalyzed_count(self.key_names(), self.analyzed_names())
    }

    /// Whether the walk has finished.
    pub open spec fn is_done(self) -> bool {
        self.queued().len() == 0
    }

    /// The walk's internal soundness: everything queued or analyzed lies
    /// in the closure of the seeds, every analyzed package's manifest is
    /// loaded and its internal dependencies are queued or analyzed, the
    /// seeds are covered, and every queued name is an internal package.
    pub closed spec fn wf(self) -> bool {
        &&& forall|i: int|
            0 <= i < self.queue@.len() ==> spec_reaches(
                self.graph(),
                self.internal(),
                self.seeds().to_set(),
                #[trigger] self.queue@[i]@,
            )
        &&& forall|i: int|
            0 <= i < self.analyzed@.len() ==> spec_reaches(
                self.graph(),
                self.internal(),
                self.seeds().to_set(),
                #[trigger] self.analyzed@[i]@,
            )
        &&& forall|i: int|
            0 <= i < self.analyzed@.len() ==> self.graph().dom().contains(
                #[trigger] self.analyzed@[i]@,
            )
        &&& forall|i: int, d: Seq<char>|
            0 <= i < self.analyzed@.len() && #[trigger] self.graph()[self.analyzed@[i]@].contains(
                d,
            ) && self.internal().contains(d) ==> seq_has(names_of(self.analyzed@), d) || seq_has(
                names_of(self.queue@),
                d,
            )
        &&& forall|i: int|
            0 <= i < self.changed_names@.len() ==> seq_has(
                names_of(self.analyzed@),
                #[trigger] self.changed_names@[i]@,
            ) || seq_has(names_of(self.queue@), self.changed_names@[i]@)
        &&& forall|i: int|
            0 <= i < self.queue@.len() ==> self.internal().contains(#[trigger] self.queue@[i]@)
    }
}

/// The keys of a list of entries, in order, duplicates kept.
pub open spec fn key_seq(s: Seq<(String, String)>) -> Seq<Seq<char>> {
    Seq::new(s.len(), |i: int| s[i].0@)
}

/// How many entries of `keys` name something outside `analyzed`.
pub open spec fn spec_unanalyzed_count(keys: Seq<Seq<char>>, analyzed: Seq<Seq<char>>) -> nat
    decreases keys.len(),
{
    if keys.len() == 0 {
        0
    } else {
        (if seq_has(analyzed, keys.last()) {
            0nat
        } else {
            1nat
        }) + spec_unanalyzed_count(keys.drop_last(), analyzed)
    }
}

/// Analyzing one more name never raises the count.
proof fn lemma_count_monotone(keys: Seq<Seq<char>>, analyzed: Seq<Seq<char>>, x: Seq<char>)
    ensures
        spec_unanalyzed_count(keys, analyzed.push(x)) <= spec_unanalyzed_count(keys, analyzed),
    decreases keys.len(),
{
    if keys.len() > 0 {
        if seq_has(analyzed, keys.last()) {
            let i = choose|i: int| 0 <= i < analyzed.len() && analyzed[i] == keys.last();
            assert(analyzed.push(x)[i] == keys.last());
        }
        lemma_count_monotone(keys.drop_last(), analyzed, x);
    }
}

/// Analyzing a recorded name that was not analyzed before lowers the
/// count.
proof fn lemma_count_strict(keys: Seq<Seq<char>>, analyzed: Seq<Seq<char>>, x: Seq<char>)
    requires
        seq_has(keys, x),
        !seq_has(analyzed, x),
    ensures
        spec_unanalyzed_count(keys, analyzed.push(x)) < spec_unanalyzed_count(keys, analyzed),
    decreases keys.len(),
{
    let last = keys.last();
    if last == x {
        assert(seq_has(analyzed.push(x), last)) by {
            assert(analyzed.push(x)[analyzed.len() as int] == x);
        }
        lemma_count_monotone(keys.drop_last(), analyzed, x);
    } else {
        assert(seq_has(keys.drop_last(), x)) by {
            let i = choose|i: int| 0 <= i < keys.len() && keys[i] == x;
            assert(keys.drop_last()[i] == x);
        }
        lemma_count_strict(keys.drop_last(), analyzed, x);
        assert(seq_has(analyzed.push(x), last) == seq_has(analyzed, last)) by {
            if seq_has(analyzed, last) {
                let i = choose|i: int| 0 <= i < analyzed.len() && analyzed[i] == last;
                assert(analyzed.push(x)[i] == last);
            }
            if seq_has(analyzed.push(x), last) {
                let i = choose|i: int|
                    0 <= i < analyzed.push(x).len() && analyzed.push(x)[i] == last;
                if i < analyzed.len() {
                    assert(analyzed[i] == last);
                }
            }
        }
    }
}

/// A name with a recorded directory appears among the recorded keys.
proof fn lemma_path_get_key(s: Seq<(String, String)>, k: Seq<char>)
    requires
        spec_path_get(s, k) is Some,
    ensures
        seq_has(key_seq(s), k),
    decreases s.len(),
{
    if s.len() > 0 {
        if s.last().0@ == k {
            assert(key_seq(s)[s.len() - 1] == k);
        } else {
            lemma_path_get_key(s.drop_last(), k);
            let i = choose|i: int|
                0 <= i < key_seq(s.drop_last()).len() && key_seq(s.drop_last())[i] == k;
            assert(key_seq(s)[i] == k);
        }
    }
}

/// The distinct changed-package names, in first-seen order: two changed
/// directories declaring the same package name seed the walk once, as one
/// package.
pub open spec fn spec_seed_names(changed: Seq<(String, PackageManifest)>) -> Seq<Seq<char>>
    decreases changed.len(),
{
    if changed.len() == 0 {
        seq![]
    } else {
        seq_insert(spec_seed_names(changed.drop_last()), changed.last().1.name@)
    }
}

/// Every seed name is some changed package's name.
proof fn lemma_seed_name_source(changed: Seq<(String, PackageManifest)>, x: Seq<char>)
    requires
        seq_has(spec_seed_names(changed), x),
    ensures
        exists|j: int| 0 <= j < changed.len() && #[trigger] changed[j].1.name@ == x,
    decreases changed.len(),
{
    if changed.len() > 0 {
        let prev = spec_seed_names(changed.drop_last());
        if spec_seed_names(changed) == prev {
            lemma_seed_name_source(changed.drop_last(), x);
            let j = choose|j: int|
                0 <= j < changed.drop_last().len() && #[trigger] changed.drop_last()[j].1.name@
                    == x;
            assert(changed[j].1.name@ == x);
        } else {
            let i = choose|i: int|
                0 <= i < prev.push(changed.last().1.name@).len() && prev.push(
                    changed.last().1.name@,
                )[i] == x;
            if i < prev.len() {
                assert(seq_has(prev, x));
                lemma_seed_name_source(changed.drop_last(), x);
                let j = choose|j: int|
                    0 <= j < changed.drop_last().len() && #[trigger] changed.drop_last()[j].1.name@
                        == x;
                assert(changed[j].1.name@ == x);
            } else {
                assert(changed[changed.len() - 1].1.name@ == x);
            }
        }
    }
}

/// A non-empty changed set seeds at least one name.
proof fn lemma_seed_names_nonempty(changed: Seq<(String, PackageManifest)>)
    requires
        changed.len() > 0,
    ensures
        spec_seed_names(changed).len() > 0,
    decreases changed.len(),
{
    if changed.drop_last().len() > 0 {
        lemma_seed_names_nonempty(changed.drop_last());
    }
}

/// The dependency map the changed packages' own manifests build up.
pub open spec fn spec_changed_graph(changed: Seq<(String, PackageManifest)>) -> Map<
    Seq<char>,
    Seq<Seq<char>>,
>
    decreases changed.len(),
{
    if changed.len() == 0 {
        Map::empty()
    } else {
        spec_changed_graph(changed.drop_last()).insert(
            changed.last().1.name@,
            names_of(changed.last().1.dependencies@),
        )
    }
}

/// The directory of changed package `k`, with a later entry winning.
pub open spec fn spec_changed_dir(changed: Seq<(String, PackageManifest)>, k: Seq<char>) -> Option<
    Seq<char>,
>
    decreases changed.len(),
{
    if changed.len() == 0 {
        None
    } else if changed.last().1.name@ == k {
        Some(changed.last().0@)
    } else {
        spec_changed_dir(changed.drop_last(), k)
    }
}

/// The path override the workspace manifest declares for `k`, if any,
/// with a later entry winning.
pub open spec fn spec_ws_path(ws: Seq<(String, Option<String>)>, k: Seq<char>) -> Option<Seq<char>>
    decreases ws.len(),
{
    if ws.len() == 0 {
        None
    } else if ws.last().0@ == k && ws.last().1 is Some {
        Some(ws.last().1->0@)
    } else {
        spec_ws_path(ws.drop_last(), k)
    }
}

/// The directory of internal package `k` as the reducer records it: the
/// workspace's path override where one is declared, else the changed
/// package's own directory.
pub open spec fn spec_internal_dir(
    changed: Seq<(String, PackageManifest)>,
    ws: Seq<(String, Option<String>)>,
    k: Seq<char>,
) -> Option<Seq<char>> {
    match spec_ws_path(ws, k) {
        Some(p) => Some(p),
        None => spec_changed_dir(changed, k),
    }
}

/// Reachability only grows when an unknown package's manifest is added.
proof fn lemma_reach_insert(
    g: Map<Seq<char>, Seq<Seq<char>>>,
    internal: Set<Seq<char>>,
    seeds: Set<Seq<char>>,
    k: Seq<char>,
    v: Seq<Seq<char>>,
    p: Seq<char>,
)
    requires
        !g.dom().contains(k),
        spec_reaches(g, internal, seeds, p),
    ensures
        spec_reaches(g.insert(k, v), internal, seeds, p),
{
    let chain = choose|chain: Seq<Seq<char>>|
        #[trigger] spec_dep_chain(g, internal, seeds, chain) && chain.last() == p;
    assert forall|i: int| 0 < i < chain.len() implies g.insert(k, v).dom().contains(
        #[trigger] chain[i - 1],
    ) && g.insert(k, v)[chain[i - 1]].contains(chain[i]) && internal.contains(chain[i]) by {
        assert(g.dom().contains(chain[i - 1]));
        assert(chain[i - 1] != k);
    }
    assert(spec_dep_chain(g.insert(k, v), internal, seeds, chain) && chain.last() == p);
}

/// One dependency edge out of the closure stays inside the closure.
proof fn lemma_reach_step(
    g: Map<Seq<char>, Seq<Seq<char>>>,
    internal: Set<Seq<char>>,
    seeds: Set<Seq<char>>,
    q: Seq<char>,
    p: Seq<char>,
)
    requires
        spec_reaches(g, internal, seeds, q),
        g.dom().contains(q),
        g[q].contains(p),
        internal.contains(p),
    ensures
        spec_reaches(g, internal, seeds, p),
{
    let chain = choose|chain: Seq<Seq<char>>|
        #[trigger] spec_dep_chain(g, internal, seeds, chain) && chain.last() == q;
    let longer = chain.push(p);
    assert forall|i: int| 0 < i < longer.len() implies g.dom().contains(#[trigger] longer[i - 1])
        && g[longer[i - 1]].contains(longer[i]) && internal.contains(longer[i]) by {
        if i < chain.len() {
            assert(longer[i - 1] == chain[i - 1]);
            assert(longer[i] == chain[i]);
        } else {
            assert(longer[i - 1] == chain.last());
            assert(longer[i] == p);
        }
    }
    assert(spec_dep_chain(g, internal, seeds, longer) && longer.last() == p);
}

/// Two filters agree when their predicates agree on every element.
proof fn lemma_filter_congruent(
    s: Seq<Seq<char>>,
    p1: spec_fn(Seq<char>) -> bool,
    p2: spec_fn(Seq<char>) -> bool,
)
    requires
        forall|i: int| 0 <= i < s.len() ==> p1(#[trigger] s[i]) == p2(s[i]),
    ensures
        s.filter(p1) == s.filter(p2),
    decreases s.len(),
{
    reveal(Seq::filter);
    if s.len() > 0 {
        let t = s.drop_last();
        assert(forall|i: int| 0 <= i < t.len() ==> p1(#[trigger] t[i]) == p2(t[i]));
        lemma_filter_congruent(t, p1, p2);
    }
}

impl ClosureReducer {
    /// Seeds the walk with the changed packages' manifests and the
    /// workspace-level dependency declarations.
    ///
    /// Each changed package is an internal package in its own directory; a
    /// workspace path override wins over that.  The changed packages'
    /// dependency lists are loaded at once; everything else is loaded on
    /// demand through `advance`.
    pub fn new(changed: Vec<(String, PackageManifest)>, workspace: &WorkspaceManifest) -> (r: Self)
        ensures
            r.wf(),
            r.seeds() == spec_seed_names(changed@),
            r.queued() == r.seeds(),
            r.analyzed_names() == Seq::<Seq<char>>::empty(),
            r.graph() == spec_changed_graph(changed@),
            forall|k: Seq<char>| r.path_of(k) == spec_internal_dir(changed@, workspace.dependencies@, k),
            forall|k: Seq<char>|
                r.internal().contains(k) <==> spec_internal_dir(
                    changed@,
                    workspace.dependencies@,
                    k,
                ) is Some,
            r.is_done() <==> changed@.len() == 0,
    {
        let mut changed_names: Vec<String> = Vec::new();
        let mut queue: Vec<String> = Vec::new();
        let mut deps_of: Vec<(String, Vec<String>)> = Vec::new();
        let mut changed_dirs: Vec<(String, String)> = Vec::new();
        let n = changed.len();
        let mut i: usize = 0;
        while i < n
            invariant
                0 <= i <= n,
                n == changed@.len(),
                names_of(changed_names@) == spec_seed_names(changed@.take(i as int)),
                changed_dirs@.len() == i,
                forall|k: int|
                    0 <= k < i ==> #[trigger] changed_dirs@[k].0@ == changed@[k].1.name@
                        && changed_dirs@[k].1@ == changed@[k].0@,
                spec_dep_map(deps_of@) == spec_changed_graph(changed@.take(i as int)),
                forall|k: Seq<char>|
                    spec_path_get(changed_dirs@, k) == spec_changed_dir(
                        changed@.take(i as int),
                        k,
                    ),
            decreases n - i,
        {
            let name = changed[i].1.name.clone();
            let dir = changed[i].0.clone();
            let mut deps: Vec<String> = Vec::new();
            let dn = changed[i].1.dependencies.len();
            let mut j: usize = 0;
            while j < dn
                invariant
                    0 <= j <= dn,
                    0 <= i < changed@.len(),
                    dn == changed@[i as int].1.dependencies@.len(),
                    deps@.len() == j,
                    forall|k: int|
                        0 <= k < j ==> deps@[k]@ == changed@[i as int].1.dependencies@[k]@,
                decreases dn - j,
            {
                deps.push(changed[i].1.dependencies[j].clone());
                j = j + 1;
            }
            proof {
                assert(names_of(deps@) =~= names_of(changed@[i as int].1.dependencies@));
            }
            let ghost old_deps_of = deps_of@;
            let ghost old_dirs = changed_dirs@;
            insert_name(&mut changed_names, name.as_str());
            deps_of.push((name.clone(), deps));
            changed_dirs.push((name, dir));
            proof {
                assert(deps_of@.drop_last() =~= old_deps_of);
                assert(changed_dirs@.drop_last() =~= old_dirs);
                assert(changed@.take(i + 1).drop_last() =~= changed@.take(i as int));
                assert(changed@.take(i + 1).last() == changed@[i as int]);
                assert forall|k: int|
                    0 <= k < i + 1 implies #[trigger] changed_dirs@[k].0@ == changed@[k].1.name@
                    && changed_dirs@[k].1@ == changed@[k].0@ by {
                    if k < i {
                        assert(changed_dirs@[k] == old_dirs[k]);
                    }
                }
                assert(spec_dep_map(deps_of@) == spec_changed_graph(changed@.take(i + 1)));
                assert forall|k: Seq<char>|
                    spec_path_get(changed_dirs@, k) == spec_changed_dir(
                        changed@.take(i + 1),
                        k,
                    ) by {
                    assert(spec_path_get(old_dirs, k) == spec_changed_dir(
                        changed@.take(i as int),
                        k,
                    ));
                }
            }
            i = i + 1;
        }
        let qn = changed_names.len();
        let mut q: usize = 0;
        while q < qn
            invariant
                0 <= q <= qn,
                qn == changed_names@.len(),
                queue@.len() == q,
                forall|k: int| 0 <= k < q ==> #[trigger] queue@[k]@ == changed_names@[k]@,
            decreases qn - q,
        {
            queue.push(changed_names[q].clone());
            q = q + 1;
        }
        proof {
            assert(names_of(queue@) =~= names_of(changed_names@));
        }
        let mut override_paths: Vec<(String, String)> = Vec::new();
        let wn = workspace.dependencies.len();
        let mut w: usize = 0;
        while w < wn
            invariant
                0 <= w <= wn,
                wn == workspace.dependencies@.len(),
                forall|k: Seq<char>|
                    spec_path_get(override_paths@, k) == spec_ws_path(
                        workspace.dependencies@.take(w as int),
                        k,
                    ),
            decreases wn - w,
        {
            let ghost old_paths = override_paths@;
            match &workspace.dependencies[w].1 {
                Some(p) => {
                    override_paths.push((workspace.dependencies[w].0.clone(), p.clone()));
                },
                None => {},
            }
            proof {
                if override_paths@.len() > old_paths.len() {
                    assert(override_paths@.drop_last() =~= old_paths);
                }
                assert(workspace.dependencies@.take(w + 1).drop_last()
                    =~= workspace.dependencies@.take(w as int));
                assert(workspace.dependencies@.take(w + 1).last()
                    == workspace.dependencies@[w as int]);
                assert forall|k: Seq<char>|
                    spec_path_get(override_paths@, k) == spec_ws_path(
                        workspace.dependencies@.take(w + 1),
                        k,
                    ) by {
                    assert(spec_path_get(old_paths, k) == spec_ws_path(
                        workspace.dependencies@.take(w as int),
                        k,
                    ));
                }
            }
            w = w + 1;
        }
        let r = ClosureReducer {
            changed_names,
            queue,
            analyzed: Vec::new(),
            deps_of,
            changed_dirs,
            override_paths,
        };
        proof {
            assert(changed@.take(n as int) =~= changed@);
            assert(workspace.dependencies@.take(wn as int) =~= workspace.dependencies@);
            assert(r.seeds() == spec_seed_names(changed@));
            assert(r.queued() == r.seeds());
            assert(r.analyzed_names() =~= Seq::<Seq<char>>::empty());
            if changed@.len() > 0 {
                lemma_seed_names_nonempty(changed@);
            }
            assert forall|i2: int| 0 <= i2 < r.queue@.len() implies spec_reaches(
                r.graph(),
                r.internal(),
                r.seeds().to_set(),
                #[trigger] r.queue@[i2]@,
            ) by {
                assert(r.seeds()[i2] == r.queue@[i2]@);
                assert(r.seeds().to_set().contains(r.queue@[i2]@));
                lemma_reach_seed(r.graph(), r.internal(), r.seeds().to_set(), r.queue@[i2]@);
            }
            assert forall|i2: int| 0 <= i2 < r.changed_names@.len() implies seq_has(
                names_of(r.queue@),
                #[trigger] r.changed_names@[i2]@,
            ) by {
                assert(names_of(r.queue@)[i2] == r.changed_names@[i2]@);
            }
            assert forall|i2: int| 0 <= i2 < r.queue@.len() implies r.internal().contains(
                #[trigger] r.queue@[i2]@,
            ) by {
                assert(spec_path_get(r.changed_dirs@, r.queue@[i2]@) == spec_changed_dir(
                    changed@,
                    r.queue@[i2]@,
                ));
                assert(seq_has(spec_seed_names(changed@), r.queue@[i2]@)) by {
                    assert(r.seeds()[i2] == r.queue@[i2]@);
                }
                lemma_seed_name_source(changed@, r.queue@[i2]@);
                let j = choose|j: int|
                    0 <= j < changed@.len() && #[trigger] changed@[j].1.name@ == r.queue@[i2]@;
                lemma_changed_dir_at(changed@, j);
            }
        }
        r
    }
}

/// The transition one `Working` step makes: the queue's head comes off; a
/// head analyzed before changes nothing else, and a new head is analyzed,
/// with those of its dependencies that are internal and still unvisited
/// appended to the queue in manifest order.
pub open spec fn spec_working_step(pre: ClosureReducer, post: ClosureReducer) -> bool {
    let head = pre.queued()[0];
    if seq_has(pre.analyzed_names(), head) {
        &&& post.queued() == pre.queued().drop_first()
        &&& post.analyzed_names() == pre.analyzed_names()
    } else {
        &&& pre.graph().dom().contains(head)
        &&& post.analyzed_names() == pre.analyzed_names().push(head)
        &&& post.queued() == pre.queued().drop_first() + pre.graph()[head].filter(
            |d: Seq<char>|
                pre.internal().contains(d) && !seq_has(pre.analyzed_names().push(head), d),
        )
    }
}

impl ClosureReducer {
    /// Records the dependency names that the manifest of internal package
    /// `name` declares, answering a `NeedManifest` request.
    pub fn supply_manifest(&mut self, name: &str, dependencies: Vec<String>)
        requires
            old(self).wf(),
            !old(self).graph().dom().contains(name@),
        ensures
            final(self).wf(),
            final(self).graph() == old(self).graph().insert(name@, names_of(dependencies@)),
            final(self).seeds() == old(self).seeds(),
            final(self).internal() == old(self).internal(),
            forall|k: Seq<char>| final(self).path_of(k) == old(self).path_of(k),
            final(self).queued() == old(self).queued(),
            final(self).analyzed_names() == old(self).analyzed_names(),
            final(self).pending() == old(self).pending(),
    {
        let ghost oldg = self.graph();
        let ghost itl = self.internal();
        let ghost sset = self.seeds().to_set();
        self.deps_of.push((name.to_owned(), dependencies));
        proof {
            assert(self.deps_of@.drop_last() =~= old(self).deps_of@);
            let g2 = self.graph();
            assert(g2 == oldg.insert(name@, names_of(dependencies@)));
            assert forall|i: int| 0 <= i < self.queue@.len() implies spec_reaches(
                g2,
                itl,
                sset,
                #[trigger] self.queue@[i]@,
            ) by {
                lemma_reach_insert(oldg, itl, sset, name@, names_of(dependencies@),
                    self.queue@[i]@);
            }
            assert forall|i: int| 0 <= i < self.analyzed@.len() implies spec_reaches(
                g2,
                itl,
                sset,
                #[trigger] self.analyzed@[i]@,
            ) by {
                lemma_reach_insert(oldg, itl, sset, name@, names_of(dependencies@),
                    self.analyzed@[i]@);
            }
            assert forall|i: int, d: Seq<char>|
                0 <= i < self.analyzed@.len() && #[trigger] g2[self.analyzed@[i]@].contains(d)
                    && itl.contains(d) implies seq_has(names_of(self.analyzed@), d) || seq_has(
                names_of(self.queue@),
                d,
            ) by {
                assert(self.analyzed@[i]@ != name@);
                assert(g2[self.analyzed@[i]@] == oldg[self.analyzed@[i]@]);
            }
        }
    }

    /// Takes one step of the walk.
    ///
    /// When the front of the queue is a package whose manifest is loaded,
    /// it is folded into the closure — its verification is implied, so its
    /// dependencies disqualify themselves from the top-level set — and its
    /// not-yet-visited internal dependencies are queued.  When the
    /// manifest is missing, nothing changes and the driver is asked for
    /// it.  When the queue is empty, the walk is complete.
    pub fn advance(&mut self) -> (r: ReducerStep)
        requires
            old(self).wf(),
        ensures
            final(self).wf(),
            final(self).seeds() == old(self).seeds(),
            final(self).internal() == old(self).internal(),
            forall|k: Seq<char>| final(self).path_of(k) == old(self).path_of(k),
            match r {
                ReducerStep::Done => *final(self) == *old(self) && old(self).is_done(),
                ReducerStep::NeedManifest { name, path } => *final(self) == *old(self) && !old(
                    self,
                ).is_done() && name@ == old(self).queued()[0] && !old(
                    self,
                ).graph().dom().contains(name@) && old(self).internal().contains(name@) && old(
                    self,
                ).path_of(name@) == Some(path@),
                ReducerStep::Working => !old(self).is_done() && final(self).graph() == old(
                    self,
                ).graph() && spec_working_step(*old(self), *final(self)) && final(self).pending()
                    <= old(self).pending() && (final(self).pending() < old(self).pending()
                    || final(self).queued().len() < old(self).queued().len()),
            },
    {
        if self.queue.len() == 0 {
            return ReducerStep::Done;
        }
        let name = self.queue[0].clone();
        proof {
            assert(self.queued()[0] == self.queue@[0]@);
        }
        let ghost g = self.graph();
        let ghost itl = self.internal();
        let ghost sset = self.seeds().to_set();
        match dep_get(&self.deps_of, name.as_str()) {
            None => {
                proof {
                    lemma_dep_get_map(self.deps_of@, name@);
                }
                let path = match path_get(&self.override_paths, name.as_str()) {
                    Some(p) => p,
                    None => {
                        match path_get(&self.changed_dirs, name.as_str()) {
                            Some(p) => p,
                            None => {
                                proof {
                                    assert(false);
                                }
                                name.clone()
                            },
                        }
                    },
                };
                ReducerStep::NeedManifest { name, path }
            },
            Some(deps) => {
                proof {
                    lemma_dep_get_map(self.deps_of@, name@);
                }
                let ghost q_old = self.queue@;
                let ghost a_old = self.analyzed@;
                self.queue.remove(0);
                proof {
                    assert(self.queue@ =~= q_old.drop_first());
                }
                if contains_name(&self.analyzed, name.as_str()) {
                    proof {
                        assert forall|j: int| 0 <= j < self.queue@.len() implies spec_reaches(
                            g,
                            itl,
                            sset,
                            #[trigger] self.queue@[j]@,
                        ) by {
                            assert(self.queue@[j]@ == q_old[j + 1]@);
                        }
                        assert forall|j: int| 0 <= j < self.queue@.len() implies itl.contains(
                            #[trigger] self.queue@[j]@,
                        ) by {
                            assert(self.queue@[j]@ == q_old[j + 1]@);
                        }
                        assert(names_of(self.queue@) =~= names_of(q_old).drop_first());
                        assert(seq_has(names_of(self.analyzed@), names_of(q_old)[0])) by {
                            assert(names_of(q_old)[0] == q_old[0]@);
                        }
                        assert forall|i: int, d: Seq<char>|
                            0 <= i < self.analyzed@.len() && #[trigger] g[self.analyzed@[i]@]
                                .contains(d) && itl.contains(d) implies seq_has(
                            names_of(self.analyzed@),
                            d,
                        ) || seq_has(names_of(self.queue@), d) by {
                            if seq_has(names_of(q_old), d) {
                                let j = choose|j: int|
                                    0 <= j < names_of(q_old).len() && names_of(q_old)[j] == d;
                                if j == 0 {
                                    assert(seq_has(names_of(self.analyzed@), d));
                                } else {
                                    assert(names_of(self.queue@)[j - 1] == d);
                                }
                            }
                        }
                        assert forall|i: int|
                            0 <= i < self.changed_names@.len() && !seq_has(
                                names_of(self.analyzed@),
                                #[trigger] self.changed_names@[i]@,
                            ) implies seq_has(
                            names_of(self.queue@),
                            self.changed_names@[i]@,
                        ) by {
                            let d = self.changed_names@[i]@;
                            let j = choose|j: int|
                                0 <= j < names_of(q_old).len() && names_of(q_old)[j] == d;
                            if j == 0 {
                                assert(seq_has(names_of(self.analyzed@), d));
                            } else {
                                assert(names_of(self.queue@)[j - 1] == d);
                            }
                        }
                        assert(seq_has(old(self).analyzed_names(), old(self).queued()[0]));
                        assert(self.queued() == old(self).queued().drop_first());
                        assert(spec_working_step(*old(self), *self));
                        assert(self.pending() == old(self).pending());
                        assert(self.queued().len() < old(self).queued().len());
                    }
                    return ReducerStep::Working;
                }
                insert_name(&mut self.analyzed, name.as_str());
                proof {
                    crate::membership::lemma_seq_insert_has(names_of(a_old), name@);
                    assert(names_of(self.analyzed@) == names_of(a_old).push(name@));
                    assert forall|x: Seq<char>| seq_has(names_of(a_old), x) implies seq_has(
                        names_of(self.analyzed@),
                        x,
                    ) by {
                        crate::membership::lemma_seq_insert_monotone(names_of(a_old), name@, x);
                    }
                }
                let ghost q_mid = self.queue@;
                let ghost a_new = self.analyzed@;
                let ghost pred = |d: Seq<char>|
                    itl.contains(d) && !seq_has(names_of(a_old).push(name@), d);
                proof {
                    reveal(Seq::filter);
                    assert(names_of(deps@).take(0) =~= Seq::<Seq<char>>::empty());
                    assert(names_of(self.queue@) =~= names_of(q_mid) + names_of(deps@).take(
                        0,
                    ).filter(pred));
                }
                let dn = deps.len();
                let mut di: usize = 0;
                while di < dn
                    invariant
                        0 <= di <= dn,
                        dn == deps@.len(),
                        names_of(deps@) == g[name@],
                        self.analyzed@ == a_new,
                        names_of(a_new) == names_of(a_old).push(name@),
                        self.deps_of@ == old(self).deps_of@,
                        self.changed_names@ == old(self).changed_names@,
                        self.changed_dirs@ == old(self).changed_dirs@,
                        self.override_paths@ == old(self).override_paths@,
                        g == self.graph(),
                        itl == self.internal(),
                        sset == self.seeds().to_set(),
                        self.queue@.len() >= q_mid.len(),
                        pred == (|d: Seq<char>|
                            itl.contains(d) && !seq_has(names_of(a_old).push(name@), d)),
                        names_of(self.queue@) == names_of(q_mid) + names_of(deps@).take(
                            di as int,
                        ).filter(pred),
                        forall|j: int|
                            0 <= j < q_mid.len() ==> #[trigger] self.queue@[j] == q_mid[j],
                        forall|j: int|
                            0 <= j < self.queue@.len() ==> spec_reaches(
                                g,
                                itl,
                                sset,
                                #[trigger] self.queue@[j]@,
                            ),
                        forall|j: int|
                            0 <= j < self.queue@.len() ==> itl.contains(
                                #[trigger] self.queue@[j]@,
                            ),
                        forall|k: int|
                            0 <= k < di ==> !itl.contains(#[trigger] deps@[k]@) || seq_has(
                                names_of(self.analyzed@),
                                deps@[k]@,
                            ) || seq_has(names_of(self.queue@), deps@[k]@),
                        spec_reaches(g, itl, sset, name@),
                        g.dom().contains(name@),
                    decreases dn - di,
                {
                    let internal_hit = if !contains_name(&self.analyzed, deps[di].as_str()) {
                        match path_get(&self.override_paths, deps[di].as_str()) {
                            Some(_) => true,
                            None => path_get(&self.changed_dirs, deps[di].as_str()).is_some(),
                        }
                    } else {
                        false
                    };
                    let ghost q_pre = self.queue@;
                    if internal_hit {
                        self.queue.push(deps[di].clone());
                        proof {
                            assert(names_of(deps@)[di as int] == deps@[di as int]@);
                            lemma_reach_step(g, itl, sset, name@, deps@[di as int]@);
                            assert(names_of(self.queue@)[q_pre.len() as int] == deps@[
                                di as int]@);
                            assert(names_of(self.queue@) =~= names_of(q_pre).push(
                                deps@[di as int]@,
                            ));
                        }
                    }
                    proof {
                        reveal(Seq::filter);
                        let taken = names_of(deps@).take(di + 1);
                        assert(taken.drop_last() =~= names_of(deps@).take(di as int));
                        assert(taken.last() == deps@[di as int]@);
                        assert(internal_hit == pred(deps@[di as int]@));
                        if internal_hit {
                            assert(names_of(self.queue@) =~= names_of(q_mid) + taken.filter(
                                pred,
                            ));
                        } else {
                            assert(names_of(self.queue@) =~= names_of(q_mid) + taken.filter(
                                pred,
                            ));
                        }
                        assert forall|k: int|
                            0 <= k < di + 1 && itl.contains(#[trigger] deps@[k]@) && !seq_has(
                                names_of(self.analyzed@),
                                deps@[k]@,
                            ) implies seq_has(names_of(self.queue@), deps@[k]@) by {
                            if k < di {
                                if seq_has(names_of(q_pre), deps@[k]@) {
                                    let j = choose|j: int|
                                        0 <= j < names_of(q_pre).len() && names_of(q_pre)[j]
                                            == deps@[k]@;
                                    assert(names_of(self.queue@)[j] == deps@[k]@);
                                }
                            } else {
                                assert(seq_has(names_of(self.queue@), deps@[k]@));
                            }
                        }
                    }
                    di = di + 1;
                }
                proof {
                    let q_new = self.queue@;
                    assert forall|i: int| 0 <= i < self.analyzed@.len() implies spec_reaches(
                        g,
                        itl,
                        sset,
                        #[trigger] self.analyzed@[i]@,
                    ) && g.dom().contains(self.analyzed@[i]@) by {
                        assert(names_of(self.analyzed@) == names_of(a_old).push(name@));
                        assert(names_of(self.analyzed@)[i] == self.analyzed@[i]@);
                        if i < a_old.len() {
                            assert(names_of(a_old)[i] == a_old[i]@);
                            assert(self.analyzed@[i]@ == a_old[i]@);
                        } else {
                            assert(self.analyzed@[i]@ == name@);
                            assert(name@ == q_old[0]@);
                        }
                    }
                    assert forall|i: int, d: Seq<char>|
                        0 <= i < self.analyzed@.len() && #[trigger] g[self.analyzed@[i]@].contains(
                            d,
                        ) && itl.contains(d) implies seq_has(names_of(self.analyzed@), d)
                        || seq_has(names_of(q_new), d) by {
                        if self.analyzed@[i]@ == name@ {
                            let kk = choose|kk: int|
                                0 <= kk < names_of(deps@).len() && names_of(deps@)[kk] == d;
                            assert(deps@[kk]@ == d);
                        } else {
                            assert(names_of(self.analyzed@) == names_of(a_old).push(name@));
                            assert(names_of(self.analyzed@)[i] == self.analyzed@[i]@);
                            assert(i < a_old.len()) by {
                                if i == a_old.len() {
                                    assert(names_of(self.analyzed@)[i] == name@);
                                }
                            }
                            assert(names_of(a_old)[i] == self.analyzed@[i]@);
                            assert(seq_has(names_of(a_old), self.analyzed@[i]@));
                            let i0 = choose|i0: int|
                                0 <= i0 < a_old.len() && names_of(a_old)[i0] == self.analyzed@[i]@;
                            assert(g[a_old[i0]@].contains(d));
                            assert(seq_has(names_of(a_old), d) || seq_has(names_of(q_old), d));
                            if seq_has(names_of(a_old), d) {
                                assert(seq_has(names_of(self.analyzed@), d));
                            } else {
                                let j = choose|j: int|
                                    0 <= j < names_of(q_old).len() && names_of(q_old)[j] == d;
                                if j == 0 {
                                    assert(d == name@);
                                    assert(names_of(self.analyzed@)[a_old.len() as int] == name@);
                                } else {
                                    assert(names_of(q_mid)[j - 1] == d);
                                    assert(q_new[j - 1] == q_mid[j - 1]);
                                    assert(names_of(q_new)[j - 1] == d);
                                }
                            }
                        }
                    }
                    assert forall|i: int|
                        0 <= i < self.changed_names@.len() && !seq_has(
                            names_of(self.analyzed@),
                            #[trigger] self.changed_names@[i]@,
                        ) implies seq_has(names_of(q_new), self.changed_names@[i]@) by {
                        let d = self.changed_names@[i]@;
                        assert(seq_has(names_of(a_old), d) || seq_has(names_of(q_old), d));
                        if seq_has(names_of(a_old), d) {
                            assert(seq_has(names_of(self.analyzed@), d));
                        } else {
                            let j = choose|j: int|
                                0 <= j < names_of(q_old).len() && names_of(q_old)[j] == d;
                            if j == 0 {
                                assert(names_of(self.analyzed@)[a_old.len() as int] == name@);
                                assert(seq_has(names_of(self.analyzed@), d));
                            } else {
                                assert(names_of(q_mid)[j - 1] == d);
                                assert(q_new[j - 1] == q_mid[j - 1]);
                                assert(names_of(q_new)[j - 1] == d);
                            }
                        }
                    }
                    let head = old(self).queued()[0];
                    assert(head == q_old[0]@);
                    assert(head == name@);
                    assert(!seq_has(old(self).analyzed_names(), head));
                    assert(names_of(deps@).take(dn as int) =~= names_of(deps@));
                    assert(names_of(q_mid) =~= names_of(q_old).drop_first());
                    let pred2 = |d: Seq<char>|
                        old(self).internal().contains(d) && !seq_has(
                            old(self).analyzed_names().push(head),
                            d,
                        );
                    assert(forall|j: int|
                        0 <= j < g[name@].len() ==> pred(#[trigger] g[name@][j]) == pred2(
                            g[name@][j],
                        ));
                    lemma_filter_congruent(g[name@], pred, pred2);
                    assert(self.queued() == old(self).queued().drop_first() + old(
                        self,
                    ).graph()[head].filter(pred2));
                    assert(spec_working_step(*old(self), *self));
                    assert(itl.contains(name@)) by {
                        assert(old(self).queue@[0]@ == name@);
                    }
                    assert(seq_has(self.key_names(), name@)) by {
                        if spec_path_get(self.override_paths@, name@) is Some {
                            lemma_path_get_key(self.override_paths@, name@);
                            let j = choose|j: int|
                                0 <= j < key_seq(self.override_paths@).len() && key_seq(
                                    self.override_paths@,
                                )[j] == name@;
                            assert(self.key_names()[key_seq(self.changed_dirs@).len() + j]
                                == name@);
                        } else {
                            lemma_path_get_key(self.changed_dirs@, name@);
                            let j = choose|j: int|
                                0 <= j < key_seq(self.changed_dirs@).len() && key_seq(
                                    self.changed_dirs@,
                                )[j] == name@;
                            assert(self.key_names()[j] == name@);
                        }
                    }
                    lemma_count_strict(self.key_names(), names_of(a_old), name@);
                    assert(self.pending() < old(self).pending());
                }
                ReducerStep::Working
            },
        }
    }
}

impl ClosureReducer {
    /// Whether some already-analyzed package depends on `x`.
    fn eliminated_by_analyzed(&self, x: &str) -> (r: bool)
        requires
            self.wf(),
        ensures
            r == exists|p: Seq<char>|
                seq_has(names_of(self.analyzed@), p) && self.graph().dom().contains(p)
                    && #[trigger] self.graph()[p].contains(x@),
    {
        let n = self.analyzed.len();
        let mut i: usize = 0;
        while i < n
            invariant
                0 <= i <= n,
                n == self.analyzed@.len(),
                self.wf(),
                forall|k: int|
                    0 <= k < i ==> !(self.graph().dom().contains(#[trigger] self.analyzed@[k]@)
                        && self.graph()[self.analyzed@[k]@].contains(x@)),
            decreases n - i,
        {
            match dep_get(&self.deps_of, self.analyzed[i].as_str()) {
                Some(deps) => {
                    proof {
                        lemma_dep_get_map(self.deps_of@, self.analyzed@[i as int]@);
                    }
                    if contains_name(deps, x) {
                        proof {
                            assert(names_of(self.analyzed@)[i as int] == self.analyzed@[
                                i as int]@);
                            assert(seq_has(names_of(self.analyzed@), self.analyzed@[i as int]@)
                                && self.graph().dom().contains(self.analyzed@[i as int]@)
                                && self.graph()[self.analyzed@[i as int]@].contains(x@));
                        }
                        return true;
                    }
                },
                None => {
                    proof {
                        lemma_dep_get_map(self.deps_of@, self.analyzed@[i as int]@);
                        assert(false);
                    }
                },
            }
            i = i + 1;
        }
        proof {
            assert forall|p: Seq<char>|
                seq_has(names_of(self.analyzed@), p) && self.graph().dom().contains(p) implies !(
            #[trigger] self.graph()[p].contains(x@)) by {
                let k = choose|k: int|
                    0 <= k < names_of(self.analyzed@).len() && names_of(self.analyzed@)[k] == p;
                assert(self.analyzed@[k]@ == p);
            }
        }
        false
    }

    /// Every member of a finished walk's closure was analyzed.
    proof fn lemma_chain_analyzed(self, chain: Seq<Seq<char>>)
        requires
            self.wf(),
            self.is_done(),
            spec_dep_chain(self.graph(), self.internal(), self.seeds().to_set(), chain),
        ensures
            seq_has(names_of(self.analyzed@), chain.last()),
        decreases chain.len(),
    {
        if chain.len() == 1 {
            assert(self.seeds().to_set().contains(chain[0]));
            assert(self.seeds().contains(chain[0]));
            let i = choose|i: int| 0 <= i < self.seeds().len() && self.seeds()[i] == chain[0];
            assert(self.changed_names@[i]@ == chain[0]);
        } else {
            let front = chain.drop_last();
            assert forall|i: int|
                0 < i < front.len() implies self.graph().dom().contains(#[trigger] front[i - 1])
                    && self.graph()[front[i - 1]].contains(front[i]) && self.internal().contains(
                front[i],
            ) by {
                assert(front[i - 1] == chain[i - 1]);
                assert(front[i] == chain[i]);
            }
            assert(spec_dep_chain(self.graph(), self.internal(), self.seeds().to_set(), front));
            self.lemma_chain_analyzed(front);
            let prev = front.last();
            assert(prev == chain[chain.len() - 2]);
            let i0 = choose|i0: int|
                0 <= i0 < names_of(self.analyzed@).len() && names_of(self.analyzed@)[i0] == prev;
            assert(self.analyzed@[i0]@ == prev);
            assert(self.graph().dom().contains(chain[chain.len() - 1 - 1]) && self.graph()[
                chain[chain.len() - 1 - 1]].contains(chain[chain.len() - 1])
                && self.internal().contains(chain[chain.len() - 1]));
            assert(self.graph()[self.analyzed@[i0]@].contains(chain.last()));
            assert(seq_has(names_of(self.analyzed@), chain.last()) || seq_has(
                names_of(self.queue@),
                chain.last(),
            ));
        }
    }

    /// The directory recorded for internal package `name`, as
    /// `path_of` gives it: the workspace's path override where one is
    /// declared, else the changed package's own directory.
    pub fn internal_dir(&self, name: &str) -> (r: Option<String>)
        ensures
            match (r, self.path_of(name@)) {
                (Some(d), Some(p)) => d@ == p,
                (None, None) => true,
                _ => false,
            },
    {
        match path_get(&self.override_paths, name) {
            Some(p) => Some(p),
            None => path_get(&self.changed_dirs, name),
        }
    }

    /// The minimal top-level target set of a finished walk: the changed
    /// packages, in input order, without those whose verification another
    /// target already implies — exactly `spec_targets` over the loaded
    /// graph, so the outcome is independent of the order the graph was
    /// walked in.
    pub fn targets(&self) -> (r: Vec<String>)
        requires
            self.wf(),
            self.is_done(),
        ensures
            names_of(r@) == spec_targets(self.graph(), self.internal(), self.seeds()),
    {
        let ghost pred_analyzed = |x: Seq<char>|
            !(exists|p: Seq<char>|
                seq_has(names_of(self.analyzed@), p) && self.graph().dom().contains(p)
                    && #[trigger] self.graph()[p].contains(x));
        let mut out: Vec<String> = Vec::new();
        let n = self.changed_names.len();
        let mut i: usize = 0;
        proof {
            reveal(Seq::filter);
            assert(self.seeds().take(0) =~= Seq::<Seq<char>>::empty());
            assert(names_of(out@) =~= Seq::<Seq<char>>::empty());
        }
        while i < n
            invariant
                0 <= i <= n,
                n == self.changed_names@.len(),
                self.wf(),
                self.is_done(),
                pred_analyzed == (|x: Seq<char>|
                    !(exists|p: Seq<char>|
                        seq_has(names_of(self.analyzed@), p) && self.graph().dom().contains(p)
                            && #[trigger] self.graph()[p].contains(x))),
                names_of(out@) == self.seeds().take(i as int).filter(pred_analyzed),
            decreases n - i,
        {
            let ghost out_old = out@;
            let keep = !self.eliminated_by_analyzed(self.changed_names[i].as_str());
            if keep {
                out.push(self.changed_names[i].clone());
            }
            proof {
                reveal(Seq::filter);
                let t1 = self.seeds().take(i + 1);
                assert(t1.drop_last() =~= self.seeds().take(i as int));
                assert(t1.last() == self.seeds()[i as int]);
                assert(self.seeds()[i as int] == self.changed_names@[i as int]@);
                assert(keep == pred_analyzed(t1.last()));
                if keep {
                    assert(names_of(out@) =~= names_of(out_old).push(
                        self.changed_names@[i as int]@,
                    ));
                    assert(t1.filter(pred_analyzed) =~= t1.drop_last().filter(pred_analyzed)
                        + seq![t1.last()]);
                    assert(names_of(out@) =~= t1.filter(pred_analyzed));
                } else {
                    assert(t1.filter(pred_analyzed) =~= t1.drop_last().filter(pred_analyzed));
                }
            }
            i = i + 1;
        }
        proof {
            assert(self.seeds().take(n as int) =~= self.seeds());
            let g = self.graph();
            let itl = self.internal();
            let sset = self.seeds().to_set();
            let pred_spec = |x: Seq<char>| !spec_eliminated(g, itl, sset, x);
            assert forall|j: int|
                0 <= j < self.seeds().len() implies pred_analyzed(#[trigger] self.seeds()[j])
                == pred_spec(self.seeds()[j]) by {
                let x = self.seeds()[j];
                if !pred_analyzed(x) {
                    let p = choose|p: Seq<char>|
                        seq_has(names_of(self.analyzed@), p) && g.dom().contains(p)
                            && #[trigger] g[p].contains(x);
                    let i0 = choose|i0: int|
                        0 <= i0 < names_of(self.analyzed@).len() && names_of(self.analyzed@)[i0]
                            == p;
                    assert(self.analyzed@[i0]@ == p);
                    assert(spec_reaches(g, itl, sset, p));
                    assert(spec_reaches(g, itl, sset, p) && g.dom().contains(p) && g[p].contains(
                        x,
                    ));
                    assert(!pred_spec(x));
                }
                if !pred_spec(x) {
                    let p = choose|p: Seq<char>|
                        #[trigger] spec_reaches(g, itl, sset, p) && g.dom().contains(p)
                            && g[p].contains(x);
                    let chain = choose|chain: Seq<Seq<char>>|
                        #[trigger] spec_dep_chain(g, itl, sset, chain) && chain.last() == p;
                    self.lemma_chain_analyzed(chain);
                    assert(seq_has(names_of(self.analyzed@), p) && g.dom().contains(p)
                        && g[p].contains(x));
                    assert(!pred_analyzed(x));
                }
            }
            lemma_filter_congruent(self.seeds(), pred_analyzed, pred_spec);
        }
        out
    }
}

/// The graph after loading a list of manifests into `g`, front to back,
/// a name already loaded keeping its earlier entry.
pub open spec fn spec_extended_graph(
    g: Map<Seq<char>, Seq<Seq<char>>>,
    extra: Seq<(String, PackageManifest)>,
) -> Map<Seq<char>, Seq<Seq<char>>>
    decreases extra.len(),
{
    if extra.len() == 0 {
        g
    } else {
        let g2 = spec_extended_graph(g, extra.drop_last());
        if g2.dom().contains(extra.last().1.name@) {
            g2
        } else {
            g2.insert(extra.last().1.name@, names_of(extra.last().1.dependencies@))
        }
    }
}

/// The strings of `v`, re-owned.
fn clone_names(v: &Vec<String>) -> (r: Vec<String>)
    ensures
        names_of(r@) == names_of(v@),
{
    let n = v.len();
    let mut out: Vec<String> = Vec::new();
    let mut i: usize = 0;
    while i < n
        invariant
            0 <= i <= n,
            n == v@.len(),
            out@.len() == i,
            forall|k: int| 0 <= k < i ==> out@[k]@ == v@[k]@,
        decreases n - i,
    {
        out.push(v[i].clone());
        i = i + 1;
    }
    proof {
        assert(names_of(out@) =~= names_of(v@));
    }
    out
}

impl ClosureReducer {
    /// Whether the dependency names of package `name` are already loaded.
    pub fn has_manifest_loaded(&self, name: &str) -> (r: bool)
        ensures
            r == self.graph().dom().contains(name@),
    {
        proof {
            lemma_dep_get_map(self.deps_of@, name@);
        }
        match dep_get(&self.deps_of, name) {
            Some(_) => true,
            None => false,
        }
    }
}

/// Runs a whole reduction with every manifest at hand: the changed
/// packages seed the walk, the `extra` manifests answer what the walk
/// loads on demand, and the walk runs to completion — its measure proves
/// that it does.  The result is the minimal top-level target set over the
/// graph those manifests build, or nothing when the walk needs a manifest
/// that neither the changed packages nor `extra` provide.
pub fn run_reduction(
    changed: Vec<(String, PackageManifest)>,
    workspace: &WorkspaceManifest,
    extra: &Vec<(String, PackageManifest)>,
) -> (r: Option<Vec<String>>)
    ensures
        match r {
            Some(v) => names_of(v@) == spec_targets(
                spec_extended_graph(spec_changed_graph(changed@), extra@),
                Set::new(
                    |k: Seq<char>|
                        spec_internal_dir(changed@, workspace.dependencies@, k) is Some,
                ),
                spec_seed_names(changed@),
            ),
            None => true,
        },
{
    let ghost changed_view = changed@;
    let mut reducer = ClosureReducer::new(changed, workspace);
    let n = extra.len();
    let mut i: usize = 0;
    proof {
        assert(extra@.take(0) =~= Seq::<(String, PackageManifest)>::empty());
    }
    while i < n
        invariant
            0 <= i <= n,
            n == extra@.len(),
            reducer.wf(),
            reducer.graph() == spec_extended_graph(
                spec_changed_graph(changed_view),
                extra@.take(i as int),
            ),
            forall|k: Seq<char>|
                #[trigger] reducer.internal().contains(k) <==> spec_internal_dir(
                    changed_view,
                    workspace.dependencies@,
                    k,
                ) is Some,
            reducer.seeds() == spec_seed_names(changed_view),
        decreases n - i,
    {
        proof {
            assert(extra@.take(i + 1).drop_last() =~= extra@.take(i as int));
            assert(extra@.take(i + 1).last() == extra@[i as int]);
        }
        if !reducer.has_manifest_loaded(extra[i].1.name.as_str()) {
            let deps = clone_names(&extra[i].1.dependencies);
            reducer.supply_manifest(extra[i].1.name.as_str(), deps);
        }
        i = i + 1;
    }
    proof {
        assert(extra@.take(n as int) =~= extra@);
        assert(reducer.internal() =~= Set::new(
            |k: Seq<char>|
                spec_internal_dir(changed_view, workspace.dependencies@, k) is Some,
        ));
    }
    drive_to_done(&mut reducer)
}

/// Advances the walk until it finishes and hands out the targets, or
/// gives up when a manifest the walk needs was never loaded; the walk's
/// measure proves that this loop ends.
fn drive_to_done(reducer: &mut ClosureReducer) -> (r: Option<Vec<String>>)
    requires
        old(reducer).wf(),
    ensures
        match r {
            Some(v) => names_of(v@) == spec_targets(
                old(reducer).graph(),
                old(reducer).internal(),
                old(reducer).seeds(),
            ),
            None => true,
        },
{
    loop
        invariant
            reducer.wf(),
            reducer.graph() == old(reducer).graph(),
            reducer.internal() == old(reducer).internal(),
            reducer.seeds() == old(reducer).seeds(),
        decreases reducer.pending(), reducer.queued().len(),
    {
        match reducer.advance() {
            ReducerStep::Working => {},
            ReducerStep::NeedManifest { .. } => {
                return None;
            },
            ReducerStep::Done => {
                return Some(reducer.targets());
            },
        }
    }
}

/// Closure elimination is a fixed point: for a changed set in which one
/// changed package depends on another — directly or through the loaded
/// graph's closure — the top-level target set keeps the dependent package
/// and drops the dependency, and, because the closure and the elimination
/// are defined over sets alone, the result is the same whatever order the
/// graph was traversed in.
pub proof fn lemma_elimination_fixed_point(
    graph: Map<Seq<char>, Seq<Seq<char>>>,
    internal: Set<Seq<char>>,
    seeds: Seq<Seq<char>>,
    a: Seq<char>,
    b: Seq<char>,
)
    requires
        seq_has(seeds, a),
        seq_has(seeds, b),
        graph.dom().contains(a),
        graph[a].contains(b),
        forall|p: Seq<char>| graph.dom().contains(p) ==> !(#[trigger] graph[p]).contains(a),
    ensures
        seq_has(spec_targets(graph, internal, seeds), a),
        !seq_has(spec_targets(graph, internal, seeds), b),
{
    let sset = seeds.to_set();
    let pred = |x: Seq<char>| !spec_eliminated(graph, internal, sset, x);
    assert(pred(a)) by {
        if spec_eliminated(graph, internal, sset, a) {
            let p = choose|p: Seq<char>|
                #[trigger] spec_reaches(graph, internal, sset, p) && graph.dom().contains(p)
                    && graph[p].contains(a);
            assert(!graph[p].contains(a));
        }
    }
    let ia = choose|ia: int| 0 <= ia < seeds.len() && seeds[ia] == a;
    seeds.lemma_filter_contains(pred, ia);
    assert(seeds.filter(pred).contains(a));
    let ja = choose|ja: int| 0 <= ja < seeds.filter(pred).len() && seeds.filter(pred)[ja] == a;
    assert(seq_has(spec_targets(graph, internal, seeds), a));
    assert(spec_eliminated(graph, internal, sset, b)) by {
        assert(seeds.contains(a));
        assert(sset.contains(a));
        lemma_reach_seed(graph, internal, sset, a);
        assert(spec_reaches(graph, internal, sset, a) && graph.dom().contains(a)
            && graph[a].contains(b));
    }
    assert(!seq_has(spec_targets(graph, internal, seeds), b)) by {
        if seq_has(spec_targets(graph, internal, seeds), b) {
            let jb = choose|jb: int|
                0 <= jb < seeds.filter(pred).len() && seeds.filter(pred)[jb] == b;
            seeds.lemma_filter_pred(pred, jb);
        }
    }
}

/// A changed package's name always has a recorded directory.
proof fn lemma_changed_dir_at(changed: Seq<(String, PackageManifest)>, i: int)
    requires
        0 <= i < changed.len(),
    ensures
        spec_changed_dir(changed, changed[i].1.name@) is Some,
    decreases changed.len(),
{
    if i < changed.len() - 1 {
        assert(changed.drop_last()[i] == changed[i]);
        lemma_changed_dir_at(changed.drop_last(), i);
    }
}

} // verus!
