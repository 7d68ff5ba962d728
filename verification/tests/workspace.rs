use kirbo::package_json::{IoFailure, Package, PackageJsonError};
use kirbo::workspace::{Probe, Workspace, WorkspaceError};
use std::path::Path;

fn manifest(name: &str, deps: &[(&str, &str)], dev: &[(&str, &str)]) -> Package {
    let list = |l: &[(&str, &str)]| l.iter().map(|(a, b)| (a.to_string(), b.to_string())).collect();
    Package {
        private: None,
        name: Some(name.to_string()),
        version: Some("1.0.0".to_string()),
        license: None,
        dependencies: list(deps),
        peer_dependencies: vec![],
        dev_dependencies: list(dev),
        scripts: vec![],
    }
}

fn found(directory: &str, name: &str) -> Probe {
    Probe { directory: directory.to_string(), manifest: Ok(manifest(name, &[], &[])) }
}

fn failed(directory: &str, error: PackageJsonError) -> Probe {
    Probe { directory: directory.to_string(), manifest: Err(error) }
}

const ABSENT: PackageJsonError = PackageJsonError::IoError(IoFailure::NotFound);

/// Probes the directories from `start` upwards in a tree where exactly the
/// directories in `manifests` hold a manifest, and locates the workspace.
fn locate(start: &str, manifests: &[&str]) -> Result<Workspace, WorkspaceError> {
    let probes = Path::new(start)
        .ancestors()
        .map(|directory| {
            let directory_text = directory.to_string_lossy().into_owned();
            if manifests.iter().any(|m| Path::new(m) == directory) {
                found(&directory_text, &directory_text)
            } else {
                failed(&directory_text, ABSENT)
            }
        })
        .collect();
    Workspace::locate(probes)
}

const SINGLE: &[&str] = &["testdata/single_package/", "testdata/single_package/internal/"];
const DIRECT: &[&str] = &[
    "testdata/workspace_direct/",
    "testdata/workspace_direct/poyo/",
    "testdata/workspace_direct/internal/",
];
const NESTED: &[&str] = &[
    "testdata/workspace_nested/",
    "testdata/workspace_nested/packages/poyo/",
    "testdata/workspace_nested/internal/",
];

#[test]
fn rejects_no_package() {
    let workspace = locate("testdata/no_package/", &[]);
    assert!(workspace.is_err());
}

#[test]
fn resolves_single_package_from_root() {
    let workspace = locate("testdata/single_package/", SINGLE).unwrap();
    assert_eq!(Path::new(workspace.root()), Path::new("testdata/single_package/"));
}

#[test]
fn resolves_single_package_from_nested_directory() {
    let workspace = locate("testdata/single_package/docs/", SINGLE).unwrap();
    assert_eq!(Path::new(workspace.root()), Path::new("testdata/single_package/"));
}

#[test]
fn resolves_workspace_direct_from_root() {
    let workspace = locate("testdata/workspace_direct/", DIRECT).unwrap();
    assert_eq!(Path::new(workspace.root()), Path::new("testdata/workspace_direct/"));
}

#[test]
fn resolves_workspace_direct_from_nested_directory() {
    let workspace = locate("testdata/workspace_direct/docs/", DIRECT).unwrap();
    assert_eq!(Path::new(workspace.root()), Path::new("testdata/workspace_direct/"));
}

#[test]
fn resolves_workspace_direct_from_package() {
    let workspace = locate("testdata/workspace_direct/poyo/", DIRECT).unwrap();
    assert_eq!(Path::new(workspace.root()), Path::new("testdata/workspace_direct/"));
}

#[test]
fn resolves_workspace_direct_from_package_nested_directory() {
    let workspace = locate("testdata/workspace_direct/poyo/docs/", DIRECT).unwrap();
    assert_eq!(Path::new(workspace.root()), Path::new("testdata/workspace_direct/"));
}

#[test]
fn resolves_workspace_nested_from_root() {
    let workspace = locate("testdata/workspace_nested/", NESTED).unwrap();
    assert_eq!(Path::new(workspace.root()), Path::new("testdata/workspace_nested/"));
}

#[test]
fn resolves_workspace_nested_from_nested_directory() {
    let workspace = locate("testdata/workspace_nested/docs/", NESTED).unwrap();
    assert_eq!(Path::new(workspace.root()), Path::new("testdata/workspace_nested/"));
}

#[test]
fn resolves_workspace_nested_from_package() {
    let workspace = locate("testdata/workspace_nested/packages/poyo/", NESTED).unwrap();
    assert_eq!(Path::new(workspace.root()), Path::new("testdata/workspace_nested/"));
}

#[test]
fn resolves_workspace_nested_from_package_nested_directory() {
    let workspace = locate("testdata/workspace_nested/packages/poyo/docs/", NESTED).unwrap();
    assert_eq!(Path::new(workspace.root()), Path::new("testdata/workspace_nested/"));
}

#[test]
fn no_manifest_anywhere_is_an_error() {
    let probes = vec![
        failed("testdata/no_package", ABSENT),
        failed("testdata", ABSENT),
        failed("", ABSENT),
    ];
    assert_eq!(Workspace::locate(probes).err(), Some(WorkspaceError::NoManifestFound));
    assert_eq!(Workspace::locate(vec![]).err(), Some(WorkspaceError::NoManifestFound));
}

#[test]
fn root_comes_with_its_manifest() {
    let probes = vec![
        failed("testdata/single_package/docs", ABSENT),
        found("testdata/single_package", "single"),
        failed("testdata", ABSENT),
        failed("", ABSENT),
    ];
    let workspace = Workspace::locate(probes).unwrap();
    assert_eq!(workspace.root(), "testdata/single_package");
    assert_eq!(workspace.manifest().name.as_deref(), Some("single"));
}

#[test]
fn outermost_manifest_wins() {
    let probes = vec![
        failed("root/pkg/docs", ABSENT),
        found("root/pkg", "pkg"),
        found("root", "root"),
        failed("", ABSENT),
    ];
    let workspace = Workspace::locate(probes).unwrap();
    assert_eq!(workspace.root(), "root");
    assert_eq!(workspace.manifest().name.as_deref(), Some("root"));
}

#[test]
fn malformed_and_unreadable_manifests_are_passed_over() {
    let probes = vec![
        found("a/b/c", "inner"),
        failed("a/b", PackageJsonError::JsonError),
        failed("a", PackageJsonError::IoError(IoFailure::Other)),
        failed("", ABSENT),
    ];
    let workspace = Workspace::locate(probes).unwrap();
    assert_eq!(workspace.root(), "a/b/c");
    assert_eq!(workspace.manifest().name.as_deref(), Some("inner"));
}

#[test]
fn start_directory_alone_can_be_the_root() {
    let workspace = Workspace::locate(vec![found("/", "top")]).unwrap();
    assert_eq!(workspace.root(), "/");
}

#[test]
fn joined_dependencies_prefer_development_ranges() {
    let package = manifest(
        "demo",
        &[("a", "^1.0.0"), ("b", "~2.0.0")],
        &[("b", "3.0.0"), ("c", "*")],
    );
    let joined = package.joined_dependencies();
    assert_eq!(joined.len(), 3);
    assert_eq!(joined.get("a").map(String::as_str), Some("^1.0.0"));
    assert_eq!(joined.get("b").map(String::as_str), Some("3.0.0"));
    assert_eq!(joined.get("c").map(String::as_str), Some("*"));
    assert_eq!(joined.get("d"), None);
    let entries = joined.into_entries();
    let names: Vec<&str> = entries.iter().map(|(n, _)| n.as_str()).collect();
    assert_eq!(names, vec!["a", "b", "c"]);
}

#[test]
fn joined_dependencies_of_an_empty_manifest_are_empty() {
    let package = manifest("demo", &[], &[]);
    assert_eq!(package.joined_dependencies().len(), 0);
}

#[test]
fn joined_dependencies_take_the_later_of_a_repeated_name() {
    let package = manifest("demo", &[("a", "1.0.0"), ("a", "2.0.0")], &[]);
    let joined = package.joined_dependencies();
    assert_eq!(joined.len(), 1);
    assert_eq!(joined.get("a").map(String::as_str), Some("2.0.0"));
}
