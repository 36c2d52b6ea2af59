use ops::manifest::PackageManifest;
use ops::manifest::WorkspaceManifest;
use ops::reducer::ClosureReducer;
use ops::reducer::ReducerStep;

fn manifest(name: &str, deps: &[&str]) -> PackageManifest {
    PackageManifest {
        name: name.to_string(),
        dependencies: deps.iter().map(|d| d.to_string()).collect(),
    }
}

fn workspace(entries: &[(&str, Option<&str>)]) -> WorkspaceManifest {
    WorkspaceManifest {
        dependencies: entries
            .iter()
            .map(|(n, p)| (n.to_string(), p.map(|x| x.to_string())))
            .collect(),
    }
}

/// Drives the walk, answering manifest requests from `extra`.
fn run(mut reducer: ClosureReducer, extra: &[(&str, &[&str])]) -> Vec<String> {
    let mut supplied: Vec<String> = Vec::new();
    for _ in 0..1000 {
        match reducer.advance() {
            ReducerStep::Working => {}
            ReducerStep::NeedManifest { name, path: _ } => {
                assert!(!supplied.contains(&name), "manifest requested twice: {name}");
                let deps = extra
                    .iter()
                    .find(|(n, _)| *n == name)
                    .map(|(_, d)| d.iter().map(|x| x.to_string()).collect())
                    .unwrap_or_else(Vec::new);
                supplied.push(name.clone());
                reducer.supply_manifest(&name, deps);
            }
            ReducerStep::Done => return reducer.targets(),
        }
    }
    panic!("walk did not finish");
}

#[test]
fn dependency_of_another_changed_package_is_eliminated() {
    let changed = vec![
        ("crates/a".to_string(), manifest("a", &["b", "serde"])),
        ("crates/b".to_string(), manifest("b", &[])),
    ];
    let ws = workspace(&[("a", Some("crates/a")), ("b", Some("crates/b")), ("serde", None)]);
    let targets = run(ClosureReducer::new(changed, &ws), &[]);
    assert_eq!(targets, vec!["a".to_string()]);
}

#[test]
fn elimination_is_order_independent() {
    let changed = vec![
        ("crates/b".to_string(), manifest("b", &[])),
        ("crates/a".to_string(), manifest("a", &["b"])),
    ];
    let ws = workspace(&[("a", Some("crates/a")), ("b", Some("crates/b"))]);
    let targets = run(ClosureReducer::new(changed, &ws), &[]);
    assert_eq!(targets, vec!["a".to_string()]);
}

#[test]
fn independent_packages_all_stay() {
    let changed = vec![
        ("crates/a".to_string(), manifest("a", &["serde"])),
        ("crates/b".to_string(), manifest("b", &["tokio"])),
    ];
    let ws = workspace(&[("a", Some("crates/a")), ("b", Some("crates/b")), ("serde", None)]);
    let targets = run(ClosureReducer::new(changed, &ws), &[]);
    assert_eq!(targets, vec!["a".to_string(), "b".to_string()]);
}

#[test]
fn transitive_dependency_is_eliminated_through_a_loaded_manifest() {
    // a -> mid -> b, where only a and b changed: mid's manifest is loaded
    // on demand, and b is eliminated through it.
    let changed = vec![
        ("crates/a".to_string(), manifest("a", &["mid"])),
        ("crates/b".to_string(), manifest("b", &[])),
    ];
    let ws = workspace(&[
        ("a", Some("crates/a")),
        ("b", Some("crates/b")),
        ("mid", Some("crates/mid")),
    ]);
    let targets = run(ClosureReducer::new(changed, &ws), &[("mid", &["b"])]);
    assert_eq!(targets, vec!["a".to_string()]);
}

#[test]
fn external_dependencies_are_not_expanded() {
    let changed = vec![("crates/a".to_string(), manifest("a", &["serde", "rand"]))];
    let ws = workspace(&[("a", Some("crates/a")), ("serde", None)]);
    let targets = run(ClosureReducer::new(changed, &ws), &[]);
    assert_eq!(targets, vec!["a".to_string()]);
}

#[test]
fn cyclic_dependencies_terminate_and_eliminate_both() {
    let changed = vec![
        ("crates/a".to_string(), manifest("a", &["b"])),
        ("crates/b".to_string(), manifest("b", &["a"])),
    ];
    let ws = workspace(&[("a", Some("crates/a")), ("b", Some("crates/b"))]);
    let targets = run(ClosureReducer::new(changed, &ws), &[]);
    assert_eq!(targets, Vec::<String>::new());
}

#[test]
fn no_changed_packages_yield_no_targets() {
    let ws = workspace(&[("a", Some("crates/a"))]);
    let targets = run(ClosureReducer::new(vec![], &ws), &[]);
    assert_eq!(targets, Vec::<String>::new());
}

#[test]
fn requested_manifest_path_uses_workspace_override() {
    let changed = vec![("crates/a".to_string(), manifest("a", &["mid"]))];
    let ws = workspace(&[("a", Some("crates/a")), ("mid", Some("vendored/mid"))]);
    let mut reducer = ClosureReducer::new(changed, &ws);
    loop {
        match reducer.advance() {
            ReducerStep::Working => {}
            ReducerStep::NeedManifest { name, path } => {
                assert_eq!(name, "mid");
                assert_eq!(path, "vendored/mid");
                reducer.supply_manifest(&name, vec![]);
            }
            ReducerStep::Done => break,
        }
    }
    assert_eq!(reducer.targets(), vec!["a".to_string()]);
}

#[test]
fn duplicate_changed_directories_with_one_name_seed_once() {
    let changed = vec![
        ("crates/a".to_string(), manifest("a", &["b"])),
        ("mirrors/a".to_string(), manifest("a", &["b"])),
        ("crates/b".to_string(), manifest("b", &[])),
    ];
    let ws = workspace(&[("a", Some("crates/a")), ("b", Some("crates/b"))]);
    let targets = run(ClosureReducer::new(changed, &ws), &[]);
    assert_eq!(targets, vec!["a".to_string()]);
}

#[test]
fn targets_come_with_recorded_directories() {
    let changed = vec![
        ("crates/a".to_string(), manifest("a", &[])),
        ("crates/b".to_string(), manifest("b", &[])),
    ];
    let ws = workspace(&[("a", Some("crates/a"))]);
    let mut reducer = ClosureReducer::new(changed, &ws);
    loop {
        match reducer.advance() {
            ReducerStep::Working => {}
            ReducerStep::NeedManifest { name, .. } => panic!("unexpected load of {name}"),
            ReducerStep::Done => break,
        }
    }
    assert_eq!(reducer.internal_dir("a"), Some("crates/a".to_string()));
    assert_eq!(reducer.internal_dir("b"), Some("crates/b".to_string()));
    assert_eq!(reducer.internal_dir("serde"), None);
}

#[test]
fn run_reduction_completes_the_whole_walk() {
    let changed = vec![
        ("crates/a".to_string(), manifest("a", &["b"])),
        ("crates/b".to_string(), manifest("b", &[])),
    ];
    let ws = workspace(&[("a", Some("crates/a")), ("b", Some("crates/b"))]);
    let targets = ops::reducer::run_reduction(changed, &ws, &vec![]).unwrap();
    assert_eq!(targets, vec!["a".to_string()]);
}

#[test]
fn run_reduction_uses_the_extra_manifests() {
    let changed = vec![
        ("crates/a".to_string(), manifest("a", &["mid"])),
        ("crates/b".to_string(), manifest("b", &[])),
    ];
    let ws = workspace(&[
        ("a", Some("crates/a")),
        ("b", Some("crates/b")),
        ("mid", Some("crates/mid")),
    ]);
    let extra = vec![("crates/mid".to_string(), manifest("mid", &["b"]))];
    let targets = ops::reducer::run_reduction(changed, &ws, &extra).unwrap();
    assert_eq!(targets, vec!["a".to_string()]);
}

#[test]
fn run_reduction_gives_up_on_a_missing_manifest() {
    let changed = vec![("crates/a".to_string(), manifest("a", &["mid"]))];
    let ws = workspace(&[("a", Some("crates/a")), ("mid", Some("crates/mid"))]);
    assert_eq!(ops::reducer::run_reduction(changed, &ws, &vec![]), None);
}
