use ops::manifest::ManifestError;
use ops::manifest::parse_package_manifest;
use ops::manifest::parse_workspace_manifest;

#[test]
fn package_manifest_yields_name_and_dependency_names() {
    let text = "[package]\nname = \"alpha\"\nversion = \"0.1.0\"\n\n[dependencies]\nserde = \"1\"\nbeta = { path = \"../beta\" }\n";
    let m = parse_package_manifest(text).unwrap();
    assert_eq!(m.name, "alpha");
    // toml's table is ordered by key.
    assert_eq!(m.dependencies, vec!["beta".to_string(), "serde".to_string()]);
}

#[test]
fn package_manifest_without_dependencies_declares_none() {
    let m = parse_package_manifest("[package]\nname = \"alpha\"\n").unwrap();
    assert_eq!(m.dependencies, Vec::<String>::new());
}

#[test]
fn package_manifest_syntax_error() {
    assert_eq!(parse_package_manifest("= not toml ="), Err(ManifestError::Syntax));
}

#[test]
fn package_manifest_missing_package() {
    assert_eq!(
        parse_package_manifest("[dependencies]\nserde = \"1\"\n"),
        Err(ManifestError::MissingPackage)
    );
}

#[test]
fn package_manifest_missing_name() {
    assert_eq!(
        parse_package_manifest("[package]\nversion = \"0.1.0\"\n"),
        Err(ManifestError::MissingPackageName)
    );
}

#[test]
fn package_manifest_name_not_string() {
    assert_eq!(
        parse_package_manifest("[package]\nname = 3\n"),
        Err(ManifestError::PackageNameNotString)
    );
}

#[test]
fn package_manifest_dependencies_not_table() {
    assert_eq!(
        parse_package_manifest("dependencies = 3\n\n[package]\nname = \"alpha\"\n"),
        Err(ManifestError::DependenciesNotTable)
    );
}

#[test]
fn workspace_manifest_yields_path_overrides() {
    let text = "[workspace]\nmembers = []\n\n[workspace.dependencies]\nalpha = { path = \"crates/alpha\" }\nserde = \"1\"\n";
    let w = parse_workspace_manifest(text).unwrap();
    assert_eq!(
        w.dependencies,
        vec![
            ("alpha".to_string(), Some("crates/alpha".to_string())),
            ("serde".to_string(), None),
        ]
    );
}

#[test]
fn workspace_manifest_missing_workspace() {
    assert_eq!(
        parse_workspace_manifest("[package]\nname = \"alpha\"\n"),
        Err(ManifestError::MissingWorkspace)
    );
}

#[test]
fn workspace_manifest_missing_dependencies() {
    assert_eq!(
        parse_workspace_manifest("[workspace]\nmembers = []\n"),
        Err(ManifestError::MissingWorkspaceDependencies)
    );
}

#[test]
fn workspace_manifest_dependencies_not_table() {
    assert_eq!(
        parse_workspace_manifest("[workspace]\ndependencies = 5\n"),
        Err(ManifestError::WorkspaceDependenciesNotTable)
    );
}

#[test]
fn workspace_manifest_path_not_string() {
    assert_eq!(
        parse_workspace_manifest(
            "[workspace]\n[workspace.dependencies]\nalpha = { path = 3 }\n"
        ),
        Err(ManifestError::DependencyPathNotString)
    );
}

#[test]
fn workspace_manifest_syntax_error() {
    assert_eq!(parse_workspace_manifest("]["), Err(ManifestError::Syntax));
}
