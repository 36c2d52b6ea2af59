use ops::diff_status::GitStatus;
use ops::diff_status::parse_git_statuses;
use ops::manifest::PackageManifest;
use ops::manifest::WorkspaceManifest;
use ops::membership::ManifestDirSet;
use ops::reducer::ClosureReducer;
use ops::reducer::ReducerStep;
use ops::workspace_clippy::ClippyPlan;
use ops::workspace_clippy::WorkspaceClippyArgs;
use ops::workspace_clippy::plan_clippy_targets;
use ops::workspace_clippy::requires_workspace_run;

fn tree(dirs: &[&str]) -> ManifestDirSet {
    let mut fs = ManifestDirSet::new();
    for d in dirs {
        fs.insert(d.to_string());
    }
    fs
}

fn modified(file: &str) -> GitStatus {
    GitStatus::Modified { file: file.to_string() }
}

#[test]
fn workspace_manifest_change_forces_whole_workspace() {
    let statuses = vec![modified("Cargo.toml")];
    let plan = plan_clippy_targets(&statuses, &tree(&[""])).unwrap();
    assert_eq!(plan, ClippyPlan::WholeWorkspace);
}

#[test]
fn workspace_lockfile_change_forces_whole_workspace() {
    let statuses = vec![GitStatus::Deleted { file: "Cargo.lock".to_string() }];
    let plan = plan_clippy_targets(&statuses, &tree(&[""])).unwrap();
    assert_eq!(plan, ClippyPlan::WholeWorkspace);
}

#[test]
fn workspace_config_in_a_rename_forces_whole_workspace() {
    let statuses = vec![GitStatus::Renamed {
        old: "Cargo.lock".to_string(),
        new: "Cargo.lock.bak".to_string(),
    }];
    assert!(requires_workspace_run(&statuses));
}

#[test]
fn package_level_manifest_does_not_force_whole_workspace() {
    let statuses = vec![modified("crates/a/Cargo.toml")];
    assert!(!requires_workspace_run(&statuses));
}

#[test]
fn sentinel_wins_even_with_zero_other_files() {
    let statuses = vec![modified("Cargo.toml")];
    // An empty file tree would make any membership lookup fail, but the
    // trigger rule short-circuits it.
    let plan = plan_clippy_targets(&statuses, &tree(&[])).unwrap();
    assert_eq!(plan, ClippyPlan::WholeWorkspace);
}

#[test]
fn non_source_change_plans_no_packages() {
    let statuses = vec![modified("notes/readme.md")];
    let plan = plan_clippy_targets(&statuses, &tree(&["crates/a"])).unwrap();
    assert_eq!(plan, ClippyPlan::ChangedPackages { dirs: vec![] });
}

#[test]
fn unowned_source_file_fails_the_plan() {
    let statuses = vec![modified("stray.rs")];
    let err = plan_clippy_targets(&statuses, &tree(&["crates/a"])).unwrap_err();
    assert_eq!(err.files, vec!["stray.rs".to_string()]);
}

#[test]
fn changed_packages_narrow_to_top_level_targets() {
    // Full pipeline on the two-package scenario: a depends on b, both
    // changed, so only a remains.
    let text = "M\tcrates/a/src/lib.rs\nM\tcrates/b/src/lib.rs\n";
    let statuses = parse_git_statuses(text).unwrap();
    let fs = tree(&["", "crates/a", "crates/b"]);
    let plan = plan_clippy_targets(&statuses, &fs).unwrap();
    let dirs = match plan {
        ClippyPlan::ChangedPackages { dirs } => dirs,
        ClippyPlan::WholeWorkspace => panic!("expected package plan"),
    };
    assert_eq!(dirs, vec!["crates/a".to_string(), "crates/b".to_string()]);

    let changed = vec![
        (
            "crates/a".to_string(),
            PackageManifest { name: "a".to_string(), dependencies: vec!["b".to_string()] },
        ),
        (
            "crates/b".to_string(),
            PackageManifest { name: "b".to_string(), dependencies: vec![] },
        ),
    ];
    let ws = WorkspaceManifest {
        dependencies: vec![
            ("a".to_string(), Some("crates/a".to_string())),
            ("b".to_string(), Some("crates/b".to_string())),
        ],
    };
    let mut reducer = ClosureReducer::new(changed, &ws);
    let targets = loop {
        match reducer.advance() {
            ReducerStep::Working => {}
            ReducerStep::NeedManifest { name, .. } => panic!("unexpected load of {name}"),
            ReducerStep::Done => break reducer.targets(),
        }
    };
    assert_eq!(targets, vec!["a".to_string()]);
}

#[test]
fn args_carry_verbosity() {
    let args = WorkspaceClippyArgs { verbose: true };
    assert!(args.verbose);
}
