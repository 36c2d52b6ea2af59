//! Planning a selective clippy run from a diff.
//!
//! The trigger rule comes first and short-circuits everything else: when
//! the workspace-level manifest or lockfile changed, any package can be
//! affected whatever the file-level diff says, so the plan is the
//! whole-workspace sentinel.  Otherwise the changed files are mapped to
//! their owning packages, whose set the dependency closure reducer then
//! narrows to the minimal top-level targets.

use vstd::prelude::*;

use crate::diff_status::GitStatus;
use crate::diff_status::GitStatusView;
use crate::diff_status::spec_new_file_name;
use crate::diff_status::spec_old_file_name;
use crate::diff_status::views_of;
use crate::membership::ManifestDirSet;
use crate::membership::MembershipError;
use crate::membership::names_of;
use crate::membership::resolve_changed_packages;
use crate::membership::spec_membership;
use crate::paths::is_workspace_config;
use crate::paths::spec_workspace_config;

verus! {

/// Options of the selective clippy run.
#[derive(Clone, Copy, Debug, PartialEq, Eq)]
pub struct WorkspaceClippyArgs {
    /// Whether to print commands prior to running them.
    pub verbose: bool,
}

/// Whether a change record touches the workspace-level configuration:
/// the path it leaves in the tree, or the path it took out, is the
/// workspace manifest or lockfile.
pub open spec fn spec_touches_workspace_config(v: GitStatusView) -> bool {
    ||| match spec_new_file_name(v) {
        Some(p) => spec_workspace_config(p),
        None => false,
    }
    ||| match spec_old_file_name(v) {
        Some(p) => spec_workspace_config(p),
        None => false,
    }
}

/// Whether the diff forces a whole-workspace run: some record touches the
/// workspace-level configuration.
pub open spec fn spec_requires_workspace_run(rs: Seq<GitStatusView>) -> bool {
    exists|i: int| 0 <= i < rs.len() && spec_touches_workspace_config(#[trigger] rs[i])
}

/// A change to the workspace-level configuration forces the sentinel even
/// when no other file changed at all: one touching record suffices,
/// whatever else the diff holds.
pub proof fn lemma_workspace_config_forces_full_run(rs: Seq<GitStatusView>, i: int)
    requires
        0 <= i < rs.len(),
        spec_touches_workspace_config(rs[i]),
    ensures
        spec_requires_workspace_run(rs),
{
}

/// The trigger rule: whether any changed-or-deleted file is the workspace
/// manifest or lockfile.
pub fn requires_workspace_run(statuses: &Vec<GitStatus>) -> (r: bool)
    ensures
        r == spec_requires_workspace_run(views_of(statuses@)),
{
    let n = statuses.len();
    let mut i: usize = 0;
    while i < n
        invariant
            0 <= i <= n,
            n == statuses@.len(),
            forall|k: int|
                0 <= k < i ==> !spec_touches_workspace_config(#[trigger] views_of(statuses@)[k]),
        decreases n - i,
    {
        let touches = match &statuses[i] {
            GitStatus::Added { file } => is_workspace_config(file.as_str()),
            GitStatus::Deleted { file } => is_workspace_config(file.as_str()),
            GitStatus::FileTypeChanged { file } => is_workspace_config(file.as_str()),
            GitStatus::Modified { file } => is_workspace_config(file.as_str()),
            GitStatus::Renamed { old, new } => is_workspace_config(new.as_str())
                || is_workspace_config(old.as_str()),
        };
        proof {
            assert(views_of(statuses@)[i as int] == statuses@[i as int]@);
        }
        if touches {
            return true;
        }
        i = i + 1;
    }
    false
}

/// What the check-runner should be handed.
#[derive(Clone, Debug, PartialEq, Eq)]
pub enum ClippyPlan {
    /// The whole-workspace sentinel: check everything.
    WholeWorkspace,
    /// The directories of the changed packages, in first-seen order and
    /// without duplicates, to be narrowed by the closure reducer.
    ChangedPackages { dirs: Vec<String> },
}

/// Plans the selective run for a parsed diff against the file tree `fs`.
///
/// A diff that touches the workspace configuration yields the sentinel.
/// Otherwise every changed file is resolved to its owning package; when
/// all eligible files are owned the plan carries the owning package
/// directories, and when any is not, the error lists every such file.
pub fn plan_clippy_targets(statuses: &Vec<GitStatus>, fs: &ManifestDirSet) -> (r: Result<
    ClippyPlan,
    MembershipError,
>)
    ensures
        ({
            let rs = views_of(statuses@);
            if spec_requires_workspace_run(rs) {
                r == Ok::<ClippyPlan, MembershipError>(ClippyPlan::WholeWorkspace)
            } else {
                let st = spec_membership(*fs, rs);
                match r {
                    Ok(plan) => match plan {
                        ClippyPlan::WholeWorkspace => false,
                        ClippyPlan::ChangedPackages { dirs } => names_of(dirs@) == st.0
                            && st.1.len() == 0,
                    },
                    Err(e) => e@ == st.1 && st.1.len() > 0,
                }
            }
        }),
{
    if requires_workspace_run(statuses) {
        return Ok(ClippyPlan::WholeWorkspace);
    }
    match resolve_changed_packages(statuses, fs) {
        Ok(dirs) => Ok(ClippyPlan::ChangedPackages { dirs }),
        Err(e) => Err(e),
    }
}

} // verus!
