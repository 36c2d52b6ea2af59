//! Selective verification planning for a multi-package workspace.
//!
//! Given the set of files changed since a base commit, this library computes
//! the minimal set of packages whose verification could be affected: it parses
//! `name-status` diff text into change records, maps each changed file to the
//! package directory that owns it, and reduces the changed-package set with
//! the inter-package dependency graph, falling back to a whole-workspace run
//! when workspace-level configuration changed.

pub mod base_commit;
pub mod diff_status;
pub mod manifest;
pub mod membership;
pub mod paths;
pub mod reducer;
pub mod strutil;
pub mod workspace_clippy;

pub use diff_status::GitStatus;
pub use diff_status::ParseError;
