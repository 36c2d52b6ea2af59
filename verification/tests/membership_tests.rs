use ops::diff_status::GitStatus;
use ops::membership::ManifestDirSet;
use ops::membership::PackageMembershipIndex;
use ops::membership::resolve_changed_packages;

fn tree(dirs: &[&str]) -> ManifestDirSet {
    let mut fs = ManifestDirSet::new();
    for d in dirs {
        fs.insert(d.to_string());
    }
    fs
}

fn modified(file: &str) -> GitStatus {
    GitStatus::Modified { file: file.to_string() }
}

#[test]
fn file_resolves_to_nearest_ancestor_manifest() {
    let fs = tree(&["", "crates/a"]);
    let statuses = vec![modified("crates/a/src/lib.rs")];
    let packages = resolve_changed_packages(&statuses, &fs).unwrap();
    assert_eq!(packages, vec!["crates/a".to_string()]);
}

#[test]
fn sibling_files_share_one_package() {
    let fs = tree(&["crates/a", "crates/b"]);
    let statuses = vec![
        modified("crates/a/src/lib.rs"),
        modified("crates/a/src/main.rs"),
        modified("crates/b/src/lib.rs"),
    ];
    let packages = resolve_changed_packages(&statuses, &fs).unwrap();
    assert_eq!(packages, vec!["crates/a".to_string(), "crates/b".to_string()]);
}

#[test]
fn non_source_file_is_ignored() {
    let fs = tree(&["crates/a"]);
    let statuses = vec![modified("notes/readme.md")];
    let packages = resolve_changed_packages(&statuses, &fs).unwrap();
    assert_eq!(packages, Vec::<String>::new());
}

#[test]
fn unowned_file_is_reported_with_its_exact_path() {
    let fs = tree(&["crates/a"]);
    let statuses = vec![modified("tools/loose.rs")];
    let err = resolve_changed_packages(&statuses, &fs).unwrap_err();
    assert_eq!(err.files, vec!["tools/loose.rs".to_string()]);
}

#[test]
fn all_unowned_files_are_reported_together() {
    let fs = tree(&[]);
    let statuses = vec![modified("x.rs"), modified("deep/dir/y.rs"), modified("z.md")];
    let err = resolve_changed_packages(&statuses, &fs).unwrap_err();
    assert_eq!(err.files, vec!["x.rs".to_string(), "deep/dir/y.rs".to_string()]);
}

#[test]
fn rename_resolves_both_paths() {
    let fs = tree(&["crates/a", "crates/b"]);
    let statuses = vec![GitStatus::Renamed {
        old: "crates/a/src/x.rs".to_string(),
        new: "crates/b/src/x.rs".to_string(),
    }];
    let packages = resolve_changed_packages(&statuses, &fs).unwrap();
    assert_eq!(packages, vec!["crates/b".to_string(), "crates/a".to_string()]);
}

#[test]
fn a_manifest_file_itself_is_eligible() {
    let fs = tree(&["crates/a"]);
    let statuses = vec![modified("crates/a/Cargo.toml")];
    let packages = resolve_changed_packages(&statuses, &fs).unwrap();
    assert_eq!(packages, vec!["crates/a".to_string()]);
}

#[test]
fn membership_walk_is_idempotent() {
    let fs = tree(&["crates/a"]);
    let statuses = vec![modified("crates/a/src/lib.rs"), modified("tools/stray.rs")];

    let first = resolve_changed_packages(&statuses, &fs).unwrap_err();
    let second = resolve_changed_packages(&statuses, &fs).unwrap_err();
    assert_eq!(first, second);

    let mut doubled = statuses.clone();
    doubled.extend(statuses.clone());
    let again = resolve_changed_packages(&doubled, &fs).unwrap_err();
    assert_eq!(first, again);
}

#[test]
fn memoized_walks_answer_like_fresh_ones() {
    let fs = tree(&["crates/a"]);
    let mut warm = PackageMembershipIndex::new();
    warm.get_cargo_package_of_file("crates/a/src/one.rs", &fs);
    warm.get_cargo_package_of_file("crates/a/src/two.rs", &fs);
    let (warm_packages, warm_unowned) = warm.into_results();

    let mut cold = PackageMembershipIndex::new();
    cold.get_cargo_package_of_file("crates/a/src/two.rs", &fs);
    let (cold_packages, cold_unowned) = cold.into_results();

    assert_eq!(warm_packages, vec!["crates/a".to_string()]);
    assert_eq!(cold_packages, vec!["crates/a".to_string()]);
    assert_eq!(warm_unowned, Vec::<String>::new());
    assert_eq!(cold_unowned, Vec::<String>::new());
}

#[test]
fn repository_root_can_own_files() {
    let fs = tree(&[""]);
    let statuses = vec![modified("toplevel.rs")];
    let packages = resolve_changed_packages(&statuses, &fs).unwrap();
    assert_eq!(packages, vec!["".to_string()]);
}
