//! Reading package and workspace manifests.
//!
//! The TOML text is handed to the `toml` crate.  What each query returns
//! is a function of the text alone, so every trusted wrapper states its
//! result through an uninterpreted name over the text — `spec_toml_wf`,
//! `spec_toml_root_has` and the like — and the extraction functions then
//! carry exact contracts: for every text, which manifest value comes back,
//! or which error, and under precisely which condition.

use vstd::prelude::*;

use crate::membership::names_of;

verus! {

/// Whether the text is a well-formed TOML document.
pub uninterp spec fn spec_toml_wf(t: Seq<char>) -> bool;

/// Whether the document's root table has an entry under `key`.
pub uninterp spec fn spec_toml_root_has(t: Seq<char>, key: Seq<char>) -> bool;

/// The entry at root `table`.`key`: nothing when `table` is absent, not a
/// table, or has no such entry; `Some(None)` when the entry exists but is
/// not a string; the string otherwise.
pub uninterp spec fn spec_toml_nested_string(t: Seq<char>, table: Seq<char>, key: Seq<char>) -> Option<Option<Seq<char>>>;

/// The entry at the document's root under `key`: nothing when absent;
/// `Some(None)` when it exists but is not a table; its keys otherwise.
pub uninterp spec fn spec_toml_root_table_keys(t: Seq<char>, key: Seq<char>) -> Option<Option<Seq<Seq<char>>>>;

/// The entry at root `table`.`key`: nothing when `table` or the entry is
/// absent; `Some(None)` when the entry exists but is not a table; its
/// keys otherwise.
pub uninterp spec fn spec_toml_nested_table_keys(t: Seq<char>, table: Seq<char>, key: Seq<char>) -> Option<Option<Seq<Seq<char>>>>;

/// The `path` field of the workspace dependency declaration named `dep`:
/// nothing when the declaration has no `path` entry; `Some(None)` when it
/// has one that is not a string; the path otherwise.
pub uninterp spec fn spec_toml_ws_dep_path(t: Seq<char>, dep: Seq<char>) -> Option<Option<Seq<char>>>;

/// Relies on toml's document parser (`FromStr` for `toml::Table`):
/// whether the text is well-formed TOML.
#[verifier::external_body]
fn toml_check(text: &str) -> (r: bool)
    ensures
        r == spec_toml_wf(text@),
{
    text.parse::<toml::Table>().is_ok()
}

/// Relies on toml's document parser and `toml::Value::get`: whether the
/// document's root table has an entry under `key`.
#[verifier::external_body]
fn toml_root_has(text: &str, key: &str) -> (r: bool)
    requires
        spec_toml_wf(text@),
    ensures
        r == spec_toml_root_has(text@, key@),
{
    match text.parse::<toml::Table>() {
        Ok(root) => root.get(key).is_some(),
        Err(_) => false,
    }
}

/// Relies on toml's document parser, `toml::Value::get` and
/// `toml::Value::as_str`: the string at root `table`.`key`, classified as
/// `spec_toml_nested_string` describes.
#[verifier::external_body]
fn toml_nested_string(text: &str, table: &str, key: &str) -> (r: Option<Option<String>>)
    requires
        spec_toml_wf(text@),
    ensures
        match (r, spec_toml_nested_string(text@, table@, key@)) {
            (None, None) => true,
            (Some(None), Some(None)) => true,
            (Some(Some(s)), Some(Some(v))) => s@ == v,
            _ => false,
        },
{
    match text.parse::<toml::Table>() {
        Ok(root) => root
            .get(table)
            .and_then(|t| t.get(key))
            .map(|v| v.as_str().map(|s| s.to_owned())),
        Err(_) => None,
    }
}

/// Relies on toml's document parser, `toml::Value::get`,
/// `toml::Value::as_table` and the key iterator of toml's map: the keys
/// of the table at the document's root under `key`, classified as
/// `spec_toml_root_table_keys` describes; a table's keys are pairwise
/// distinct.
#[verifier::external_body]
fn toml_root_table_keys(text: &str, key: &str) -> (r: Option<Option<Vec<String>>>)
    requires
        spec_toml_wf(text@),
    ensures
        match spec_toml_root_table_keys(text@, key@) {
            None => r is None,
            Some(None) => r == Some(Option::<Vec<String>>::None),
            Some(Some(ks)) => match r {
                Some(Some(v)) => names_of(v@) == ks && (forall|i: int, j: int|
                    0 <= i < j < v@.len() ==> v@[i]@ != v@[j]@),
                _ => false,
            },
        },
{
    match text.parse::<toml::Table>() {
        Ok(root) => root
            .get(key)
            .map(|v| v.as_table().map(|t| t.keys().cloned().collect())),
        Err(_) => None,
    }
}

/// Relies on toml's document parser, `toml::Value::get`,
/// `toml::Value::as_table` and the key iterator of toml's map: the keys
/// of the table at root `table`.`key`, classified as
/// `spec_toml_nested_table_keys` describes; a table's keys are pairwise
/// distinct.
#[verifier::external_body]
fn toml_nested_table_keys(text: &str, table: &str, key: &str) -> (r: Option<Option<Vec<String>>>)
    requires
        spec_toml_wf(text@),
    ensures
        match spec_toml_nested_table_keys(text@, table@, key@) {
            None => r is None,
            Some(None) => r == Some(Option::<Vec<String>>::None),
            Some(Some(ks)) => match r {
                Some(Some(v)) => names_of(v@) == ks && (forall|i: int, j: int|
                    0 <= i < j < v@.len() ==> v@[i]@ != v@[j]@),
                _ => false,
            },
        },
{
    match text.parse::<toml::Table>() {
        Ok(root) => root
            .get(table)
            .and_then(|t| t.get(key))
            .map(|v| v.as_table().map(|t| t.keys().cloned().collect())),
        Err(_) => None,
    }
}

/// Relies on toml's document parser, `toml::Value::get` and
/// `toml::Value::as_str`: the `path` field of the workspace dependency
/// declaration named `dep`, classified as `spec_toml_ws_dep_path`
/// describes.
#[verifier::external_body]
fn toml_ws_dep_path(text: &str, dep: &str) -> (r: Option<Option<String>>)
    requires
        spec_toml_wf(text@),
    ensures
        match (r, spec_toml_ws_dep_path(text@, dep@)) {
            (None, None) => true,
            (Some(None), Some(None)) => true,
            (Some(Some(s)), Some(Some(v))) => s@ == v,
            _ => false,
        },
{
    match text.parse::<toml::Table>() {
        Ok(root) => root
            .get("workspace")
            .and_then(|w| w.get("dependencies"))
            .and_then(|d| d.get(dep))
            .and_then(|e| e.get("path"))
            .map(|v| v.as_str().map(|s| s.to_owned())),
        Err(_) => None,
    }
}

/// What the engine reads from one package's manifest: the package's name
/// and the names of its declared dependencies.
#[derive(Clone, Debug, PartialEq, Eq)]
pub struct PackageManifest {
    pub name: String,
    pub dependencies: Vec<String>,
}

/// What the engine reads from the workspace-level manifest: each declared
/// workspace dependency, with its local path when the declaration carries
/// one — those are the workspace's internal packages; the rest are
/// external crates.
#[derive(Clone, Debug, PartialEq, Eq)]
pub struct WorkspaceManifest {
    pub dependencies: Vec<(String, Option<String>)>,
}

/// A manifest that could not be read, and in which way it is malformed.
#[derive(Clone, Copy, Debug, PartialEq, Eq)]
pub enum ManifestError {
    /// The text is not well-formed TOML.
    Syntax,
    /// The manifest has no `package` entry.
    MissingPackage,
    /// The manifest's `package` entry has no `name`.
    MissingPackageName,
    /// The manifest's `package.name` is not a string.
    PackageNameNotString,
    /// The manifest's `dependencies` entry is not a table.
    DependenciesNotTable,
    /// The manifest has no `workspace` entry.
    MissingWorkspace,
    /// The manifest's `workspace` entry has no `dependencies`.
    MissingWorkspaceDependencies,
    /// The manifest's `workspace.dependencies` is not a table.
    WorkspaceDependenciesNotTable,
    /// A dependency's `path` override is not a string.
    DependencyPathNotString,
}

/// What reading a package manifest must yield for a given text: the name
/// and dependency keys the document carries, or the error of the first
/// failing condition — malformed text, then a missing `package` entry,
/// then a missing or non-string `package.name`, then a non-table
/// `dependencies` entry.
pub open spec fn spec_package_manifest_outcome(
    t: Seq<char>,
    r: Result<PackageManifest, ManifestError>,
) -> bool {
    if !spec_toml_wf(t) {
        r == Err::<PackageManifest, ManifestError>(ManifestError::Syntax)
    } else if !spec_toml_root_has(t, "package"@) {
        r == Err::<PackageManifest, ManifestError>(ManifestError::MissingPackage)
    } else {
        match spec_toml_nested_string(t, "package"@, "name"@) {
            None => r == Err::<PackageManifest, ManifestError>(ManifestError::MissingPackageName),
            Some(None) => r == Err::<PackageManifest, ManifestError>(
                ManifestError::PackageNameNotString,
            ),
            Some(Some(name)) => match spec_toml_root_table_keys(t, "dependencies"@) {
                Some(None) => r == Err::<PackageManifest, ManifestError>(
                    ManifestError::DependenciesNotTable,
                ),
                None => match r {
                    Ok(m) => m.name@ == name && m.dependencies@.len() == 0,
                    Err(_) => false,
                },
                Some(Some(ks)) => match r {
                    Ok(m) => m.name@ == name && names_of(m.dependencies@) == ks,
                    Err(_) => false,
                },
            },
        }
    }
}

/// Reads a package manifest: the package's name from `package.name`, and
/// its dependency names from the keys of its `dependencies` table, each
/// exactly once; a manifest without a `dependencies` entry declares none.
/// Succeeds or fails exactly as `spec_package_manifest_outcome` lays
/// down, so a malformed manifest always yields the error naming its
/// offence.
pub fn parse_package_manifest(text: &str) -> (r: Result<PackageManifest, ManifestError>)
    ensures
        spec_package_manifest_outcome(text@, r),
        r matches Ok(m) ==> forall|i: int, j: int|
            0 <= i < j < m.dependencies@.len() ==> m.dependencies@[i]@ != m.dependencies@[j]@,
{
    if !toml_check(text) {
        return Err(ManifestError::Syntax);
    }
    if !toml_root_has(text, "package") {
        return Err(ManifestError::MissingPackage);
    }
    let name = match toml_nested_string(text, "package", "name") {
        None => {
            return Err(ManifestError::MissingPackageName);
        },
        Some(None) => {
            return Err(ManifestError::PackageNameNotString);
        },
        Some(Some(s)) => s,
    };
    let dependencies = match toml_root_table_keys(text, "dependencies") {
        None => Vec::new(),
        Some(None) => {
            return Err(ManifestError::DependenciesNotTable);
        },
        Some(Some(ks)) => ks,
    };
    Ok(PackageManifest { name, dependencies })
}

/// Whether one read workspace-dependency entry is right for its key: it
/// carries the key's name, and its path is exactly the string `path`
/// override the document declares for that key, or nothing when the
/// declaration has none.
pub open spec fn spec_ws_entry_ok(t: Seq<char>, key: Seq<char>, entry: (String, Option<String>)) -> bool {
    entry.0@ == key && match (entry.1, spec_toml_ws_dep_path(t, key)) {
        (Some(q), Some(Some(p))) => q@ == p,
        (None, None) => true,
        _ => false,
    }
}

/// What reading the workspace manifest must yield for a given text: each
/// key of `workspace.dependencies` paired with its string `path` override
/// where one is declared, or the error of the first failing condition —
/// malformed text, then a missing `workspace` entry, then a missing or
/// non-table `workspace.dependencies`, then some declaration whose `path`
/// is not a string.
pub open spec fn spec_workspace_manifest_outcome(
    t: Seq<char>,
    r: Result<WorkspaceManifest, ManifestError>,
) -> bool {
    if !spec_toml_wf(t) {
        r == Err::<WorkspaceManifest, ManifestError>(ManifestError::Syntax)
    } else if !spec_toml_root_has(t, "workspace"@) {
        r == Err::<WorkspaceManifest, ManifestError>(ManifestError::MissingWorkspace)
    } else {
        match spec_toml_nested_table_keys(t, "workspace"@, "dependencies"@) {
            None => r == Err::<WorkspaceManifest, ManifestError>(
                ManifestError::MissingWorkspaceDependencies,
            ),
            Some(None) => r == Err::<WorkspaceManifest, ManifestError>(
                ManifestError::WorkspaceDependenciesNotTable,
            ),
            Some(Some(ks)) => {
                if exists|i: int|
                    0 <= i < ks.len() && spec_toml_ws_dep_path(t, #[trigger] ks[i]) == Some(
                        Option::<Seq<char>>::None,
                    ) {
                    r == Err::<WorkspaceManifest, ManifestError>(
                        ManifestError::DependencyPathNotString,
                    )
                } else {
                    match r {
                        Ok(m) => m.dependencies@.len() == ks.len() && forall|i: int|
                            0 <= i < ks.len() ==> #[trigger] spec_ws_entry_ok(
                                t,
                                ks[i],
                                m.dependencies@[i],
                            ),
                        Err(_) => false,
                    }
                }
            },
        }
    }
}

/// Reads the workspace-level manifest: each key of the
/// `workspace.dependencies` table, exactly once, paired with its `path`
/// override when the declaration carries one.  Succeeds or fails exactly
/// as `spec_workspace_manifest_outcome` lays down.
pub fn parse_workspace_manifest(text: &str) -> (r: Result<WorkspaceManifest, ManifestError>)
    ensures
        spec_workspace_manifest_outcome(text@, r),
        r matches Ok(m) ==> forall|i: int, j: int|
            0 <= i < j < m.dependencies@.len() ==> m.dependencies@[i].0@
                != m.dependencies@[j].0@,
{
    if !toml_check(text) {
        return Err(ManifestError::Syntax);
    }
    if !toml_root_has(text, "workspace") {
        return Err(ManifestError::MissingWorkspace);
    }
    let keys = match toml_nested_table_keys(text, "workspace", "dependencies") {
        None => {
            return Err(ManifestError::MissingWorkspaceDependencies);
        },
        Some(None) => {
            return Err(ManifestError::WorkspaceDependenciesNotTable);
        },
        Some(Some(ks)) => ks,
    };
    let ghost ks = spec_toml_nested_table_keys(text@, "workspace"@, "dependencies"@)->0->0;
    let mut dependencies: Vec<(String, Option<String>)> = Vec::new();
    let n = keys.len();
    let mut i: usize = 0;
    while i < n
        invariant
            0 <= i <= n,
            n == keys@.len(),
            names_of(keys@) == ks,
            spec_toml_wf(text@),
            spec_toml_root_has(text@, "workspace"@),
            spec_toml_nested_table_keys(text@, "workspace"@, "dependencies"@) == Some(Some(ks)),
            dependencies@.len() == i,
            forall|k: int, l: int| 0 <= k < l < keys@.len() ==> keys@[k]@ != keys@[l]@,
            forall|k: int|
                0 <= k < i ==> #[trigger] spec_ws_entry_ok(text@, ks[k], dependencies@[k]),
        decreases n - i,
    {
        proof {
            assert(names_of(keys@)[i as int] == keys@[i as int]@);
        }
        let path = match toml_ws_dep_path(text, keys[i].as_str()) {
            None => None,
            Some(None) => {
                proof {
                    assert(spec_toml_ws_dep_path(text@, ks[i as int]) == Some(
                        Option::<Seq<char>>::None,
                    ));
                }
                return Err(ManifestError::DependencyPathNotString);
            },
            Some(Some(p)) => Some(p),
        };
        let ghost before = dependencies@;
        dependencies.push((keys[i].clone(), path));
        proof {
            assert forall|k: int|
                0 <= k < i + 1 implies #[trigger] spec_ws_entry_ok(
                text@,
                ks[k],
                dependencies@[k],
            ) by {
                if k < i {
                    assert(dependencies@[k] == before[k]);
                    assert(spec_ws_entry_ok(text@, ks[k], before[k]));
                } else {
                    assert(dependencies@[k].0@ == keys@[i as int]@);
                }
            }
        }
        i = i + 1;
    }
    proof {
        assert forall|k: int|
            0 <= k < ks.len() implies !(spec_toml_ws_dep_path(text@, #[trigger] ks[k]) == Some(
            Option::<Seq<char>>::None,
        )) by {
            assert(spec_ws_entry_ok(text@, ks[k], dependencies@[k]));
        }
        assert forall|k: int, l: int|
            0 <= k < l < dependencies@.len() implies dependencies@[k].0@
            != dependencies@[l].0@ by {
            assert(spec_ws_entry_ok(text@, ks[k], dependencies@[k]));
            assert(spec_ws_entry_ok(text@, ks[l], dependencies@[l]));
            assert(ks[k] == keys@[k]@ && ks[l] == keys@[l]@);
        }
    }
    Ok(WorkspaceManifest { dependencies })
}

} // verus!
