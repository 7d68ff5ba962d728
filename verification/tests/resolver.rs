use kirbo::npm::{PackageDist, RegistryDoc, RegistryDocVersion};
use kirbo::resolver::{select_version, Resolution, ResolveError, Resolver, DEPTH_LIMIT};
use kirbo::semver::SemverRange;

fn pairs(list: &[(&str, &str)]) -> Vec<(String, String)> {
    list.iter()
        .map(|(a, b)| (a.to_string(), b.to_string()))
        .collect()
}

fn entry(name: &str, version: &str, deps: &[(&str, &str)]) -> (String, RegistryDocVersion) {
    (
        version.to_string(),
        RegistryDocVersion {
            version: version.to_string(),
            dependencies: pairs(deps),
            dist: PackageDist {
                integrity: Some(format!("sha512-{name}-{version}")),
                tarball: format!("https://registry.test/{name}/-/{name}-{version}.tgz"),
            },
        },
    )
}

fn doc(name: &str, versions: &[(&str, &[(&str, &str)])]) -> RegistryDoc {
    RegistryDoc {
        dist_tags: Vec::new(),
        versions: versions
            .iter()
            .map(|(version, deps)| entry(name, version, deps))
            .collect(),
    }
}

fn tarball(name: &str, version: &str) -> String {
    format!("https://registry.test/{name}/-/{name}-{version}.tgz")
}

/// Runs a resolution to its end over `registry`, handing over each document
/// that is asked for, and returns the outcome with the names fetched.
fn run(registry: &[(&str, RegistryDoc)], deps: &[(&str, &str)]) -> (Resolution, Vec<String>) {
    let mut resolver = Resolver::new();
    let mut fetched = Vec::new();
    let deps = pairs(deps);
    loop {
        match resolver.resolve_dependencies(&deps, 0) {
            Resolution::Missing(name) => {
                let found = registry.iter().find(|(n, _)| *n == name);
                let (_, document) = found.unwrap_or_else(|| panic!("no package {name}"));
                fetched.push(name.clone());
                assert!(resolver.insert_document(name, document.clone()));
            }
            other => return (other, fetched),
        }
    }
}

fn resolved(outcome: Resolution) -> Vec<(String, String)> {
    match outcome {
        Resolution::Resolved(set) => {
            let mut list = Vec::new();
            for i in 0..set.len() {
                list.push((set.name_at(i).clone(), set.tarball_at(i).clone()));
            }
            list.sort();
            list
        }
        other => panic!("not resolved: {other:?}"),
    }
}

#[test]
fn selects_highest_satisfying_version() {
    let d = doc("a", &[("1.0.0", &[]), ("1.2.0", &[]), ("2.0.0", &[])]);
    let range = SemverRange::parse("^1.0.0").unwrap();
    assert_eq!(select_version(&d.versions, &range), Some(1));
    let (outcome, _) = run(&[("a", d)], &[("a", "^1.0.0")]);
    assert_eq!(resolved(outcome), vec![("a".to_string(), tarball("a", "1.2.0"))]);
}

#[test]
fn selection_does_not_depend_on_the_order_of_versions() {
    let d = doc("a", &[("2.0.0", &[]), ("1.2.0", &[]), ("1.0.0", &[]), ("1.1.0", &[])]);
    let range = SemverRange::parse("^1.0.0").unwrap();
    assert_eq!(select_version(&d.versions, &range), Some(1));
    assert_eq!(select_version(&d.versions, &SemverRange::Any), Some(0));
    assert_eq!(
        select_version(&d.versions, &SemverRange::parse("<1.2.0").unwrap()),
        Some(3)
    );
}

#[test]
fn selection_takes_the_first_of_equally_high_versions() {
    let d = doc("a", &[("1.0.0-beta", &[]), ("1.0.0", &[]), ("1.0", &[])]);
    assert_eq!(select_version(&d.versions, &SemverRange::Any), Some(0));
    assert_eq!(
        select_version(&d.versions, &SemverRange::parse("1.0.0").unwrap()),
        Some(1)
    );
}

#[test]
fn selection_passes_over_keys_that_are_no_versions() {
    let d = doc("a", &[("latest", &[]), ("1.0.0", &[]), ("01.5.0", &[]), ("", &[])]);
    assert_eq!(select_version(&d.versions, &SemverRange::Any), Some(1));
    let none = doc("a", &[("latest", &[]), ("x.y.z", &[])]);
    assert_eq!(select_version(&none.versions, &SemverRange::Any), None);
    assert_eq!(select_version(&Vec::new(), &SemverRange::Any), None);
}

#[test]
fn unsatisfiable_range_fails() {
    let d = doc("a", &[("1.0.0", &[]), ("2.0.0", &[])]);
    let range = SemverRange::parse("^3.0.0").unwrap();
    assert_eq!(select_version(&d.versions, &range), None);
    let (outcome, _) = run(&[("a", d)], &[("a", "^3.0.0")]);
    match outcome {
        Resolution::Failed(error) => assert_eq!(
            error,
            ResolveError::NoSatisfyingVersion {
                name: "a".to_string(),
                range: "^3.0.0".to_string()
            }
        ),
        other => panic!("{other:?}"),
    }
}

#[test]
fn invalid_range_fails_with_name_and_range() {
    let d = doc("a", &[("1.0.0", &[])]);
    let (outcome, fetched) = run(&[("a", d)], &[("a", "latest")]);
    assert_eq!(fetched, vec!["a".to_string()]);
    match outcome {
        Resolution::Failed(error) => assert_eq!(
            error,
            ResolveError::InvalidRange {
                name: "a".to_string(),
                range: "latest".to_string()
            }
        ),
        other => panic!("{other:?}"),
    }
}

#[test]
fn shared_transitive_dependency_is_fetched_once() {
    let registry = [
        ("a", doc("a", &[("1.0.0", &[("c", "^1.0.0")])])),
        ("b", doc("b", &[("1.0.0", &[("c", "^1.0.0")])])),
        ("c", doc("c", &[("1.0.0", &[]), ("1.5.0", &[])])),
    ];
    let (outcome, fetched) = run(&registry, &[("a", "*"), ("b", "*")]);
    assert_eq!(fetched.iter().filter(|n| *n == "c").count(), 1);
    assert_eq!(fetched, vec!["a".to_string(), "c".to_string(), "b".to_string()]);
    assert_eq!(
        resolved(outcome),
        vec![
            ("a".to_string(), tarball("a", "1.0.0")),
            ("b".to_string(), tarball("b", "1.0.0")),
            ("c".to_string(), tarball("c", "1.5.0")),
        ]
    );
}

#[test]
fn first_branch_to_reach_a_name_decides_its_version() {
    let registry = [
        ("a", doc("a", &[("1.0.0", &[("c", "1.0.0")])])),
        ("b", doc("b", &[("1.0.0", &[("c", "2.0.0")])])),
        ("c", doc("c", &[("1.0.0", &[]), ("2.0.0", &[])])),
    ];
    let (outcome, _) = run(&registry, &[("a", "*"), ("b", "*")]);
    let list = resolved(outcome);
    assert_eq!(list[2], ("c".to_string(), tarball("c", "1.0.0")));
    let (outcome, _) = run(&registry, &[("b", "*"), ("a", "*")]);
    let list = resolved(outcome);
    assert_eq!(list[2], ("c".to_string(), tarball("c", "2.0.0")));
}

#[test]
fn two_cycle_terminates_by_visited_names() {
    let registry = [
        ("a", doc("a", &[("1.0.0", &[("b", "*")])])),
        ("b", doc("b", &[("1.0.0", &[("a", "*")])])),
    ];
    let (outcome, fetched) = run(&registry, &[("a", "*")]);
    assert_eq!(fetched, vec!["a".to_string(), "b".to_string()]);
    assert_eq!(
        resolved(outcome),
        vec![
            ("a".to_string(), tarball("a", "1.0.0")),
            ("b".to_string(), tarball("b", "1.0.0")),
        ]
    );
}

#[test]
fn self_dependency_terminates() {
    let registry = [("a", doc("a", &[("1.0.0", &[("a", "*")])]))];
    let (outcome, fetched) = run(&registry, &[("a", "*")]);
    assert_eq!(fetched.len(), 1);
    assert_eq!(resolved(outcome).len(), 1);
}

fn chain(length: usize) -> Vec<(String, RegistryDoc)> {
    (0..length)
        .map(|i| {
            let name = format!("p{i}");
            let next = format!("p{}", i + 1);
            let deps: Vec<(&str, &str)> = if i + 1 < length {
                vec![(next.as_str(), "*")]
            } else {
                Vec::new()
            };
            let document = doc(&name, &[("1.0.0", &deps)]);
            (name, document)
        })
        .collect()
}

fn resolve_chain(length: usize, layer: usize) -> Resolution {
    let mut resolver = Resolver::new();
    for (name, document) in chain(length) {
        assert!(resolver.insert_document(name, document));
    }
    resolver.resolve_dependencies(&pairs(&[("p0", "*")]), layer)
}

#[test]
fn depth_limit_is_one_hundred() {
    assert_eq!(DEPTH_LIMIT, 100);
    match resolve_chain(DEPTH_LIMIT + 1, 0) {
        Resolution::Resolved(set) => assert_eq!(set.len(), DEPTH_LIMIT + 1),
        other => panic!("{other:?}"),
    }
    match resolve_chain(DEPTH_LIMIT + 2, 0) {
        Resolution::Failed(error) => assert_eq!(error, ResolveError::RecursionDepthExceeded),
        other => panic!("{other:?}"),
    }
}

#[test]
fn starting_layer_counts_towards_the_limit() {
    assert!(matches!(resolve_chain(1, DEPTH_LIMIT), Resolution::Resolved(_)));
    match resolve_chain(1, DEPTH_LIMIT + 1) {
        Resolution::Failed(error) => assert_eq!(error, ResolveError::RecursionDepthExceeded),
        other => panic!("{other:?}"),
    }
    match resolve_chain(2, DEPTH_LIMIT) {
        Resolution::Failed(error) => assert_eq!(error, ResolveError::RecursionDepthExceeded),
        other => panic!("{other:?}"),
    }
    let resolver = Resolver::new();
    assert!(matches!(
        resolver.resolve_dependencies(&Vec::new(), DEPTH_LIMIT + 5),
        Resolution::Resolved(_)
    ));
}

#[test]
fn asks_for_the_first_missing_document() {
    let mut resolver = Resolver::new();
    let deps = pairs(&[("a", "^1.0.0"), ("b", "*")]);
    match resolver.resolve_dependencies(&deps, 0) {
        Resolution::Missing(name) => assert_eq!(name, "a"),
        other => panic!("{other:?}"),
    }
    assert!(resolver.query_package("a").is_none());
    assert!(resolver.insert_document("a".to_string(), doc("a", &[("1.0.0", &[("c", "*")])])));
    assert!(resolver.query_package("a").is_some());
    match resolver.resolve_dependencies(&deps, 0) {
        Resolution::Missing(name) => assert_eq!(name, "c"),
        other => panic!("{other:?}"),
    }
}

#[test]
fn held_document_is_not_replaced() {
    let mut resolver = Resolver::new();
    assert!(resolver.insert_document("a".to_string(), doc("a", &[("1.0.0", &[])])));
    assert!(!resolver.insert_document("a".to_string(), doc("a", &[("9.9.9", &[])])));
    let held = resolver.query_package("a").unwrap();
    assert_eq!(held.versions.len(), 1);
    assert_eq!(held.versions[0].0, "1.0.0");
}

#[test]
fn empty_dependency_list_resolves_to_nothing() {
    let resolver = Resolver::default();
    match resolver.resolve_dependencies(&Vec::new(), 0) {
        Resolution::Resolved(set) => {
            assert_eq!(set.len(), 0);
            assert!(set.get("a").is_none());
        }
        other => panic!("{other:?}"),
    }
}

#[test]
fn resolved_set_gives_archive_and_entry() {
    let registry = [("a", doc("a", &[("1.0.0", &[]), ("1.1.0", &[])]))];
    let (outcome, _) = run(&registry, &[("a", "~1.0.0")]);
    match outcome {
        Resolution::Resolved(set) => {
            assert_eq!(set.get("a"), Some(&tarball("a", "1.0.0")));
            assert_eq!(set.entry("a").unwrap().version, "1.0.0");
            assert_eq!(set.entry_at(0).version, "1.0.0");
            assert!(set.get("b").is_none());
        }
        other => panic!("{other:?}"),
    }
}

#[test]
fn later_requirement_on_a_name_overrides_the_chosen_version() {
    let registry = [
        ("a", doc("a", &[("1.0.0", &[("b", "1.0.0")])])),
        ("b", doc("b", &[("1.0.0", &[]), ("2.0.0", &[])])),
    ];
    let (outcome, fetched) = run(&registry, &[("a", "*"), ("b", "2.0.0")]);
    assert_eq!(fetched, vec!["a".to_string(), "b".to_string()]);
    assert_eq!(
        resolved(outcome),
        vec![
            ("a".to_string(), tarball("a", "1.0.0")),
            ("b".to_string(), tarball("b", "2.0.0")),
        ]
    );
}
