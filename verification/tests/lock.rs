use kirbo::lock::{KirboLock, KirboLockPackage, NameSet, LOCK_VERSION};
use kirbo::npm::{PackageDist, RegistryDoc, RegistryDocVersion};
use kirbo::resolver::{Resolution, Resolver};

fn entry(version: &str, integrity: Option<&str>, deps: &[&str]) -> (String, RegistryDocVersion) {
    (
        version.to_string(),
        RegistryDocVersion {
            version: version.to_string(),
            dependencies: deps.iter().map(|d| (d.to_string(), "*".to_string())).collect(),
            dist: PackageDist {
                integrity: integrity.map(str::to_string),
                tarball: format!("https://registry.test/{version}.tgz"),
            },
        },
    )
}

fn names(set: &NameSet) -> Vec<&str> {
    (0..set.len()).map(|i| set.name_at(i).as_str()).collect()
}

#[test]
fn name_set_is_ascending_and_without_repeats() {
    let mut set = NameSet::new();
    for name in ["b", "a", "c", "a", "@x/y"] {
        set.insert(name.to_string());
    }
    assert_eq!(names(&set), vec!["@x/y", "a", "b", "c"]);
    assert!(set.contains("a"));
    assert!(!set.contains("d"));
    let list = |l: &[&str]| l.iter().map(|s| s.to_string()).collect::<Vec<_>>();
    assert_eq!(NameSet::from_names(list(&["a", "b"])), {
        let mut s = NameSet::new();
        s.insert("b".to_string());
        s.insert("a".to_string());
        Some(s)
    });
    assert_eq!(NameSet::from_names(list(&["b", "a"])), None);
    assert_eq!(NameSet::from_names(list(&["a", "a"])), None);
}

#[test]
fn package_records_its_parts() {
    let mut package = KirboLockPackage::new("url".to_string(), "sum".to_string());
    package.insert_dependency("b".to_string());
    package.insert_dependency("a".to_string());
    package.insert_peer_dependency("p".to_string());
    package.insert_dev_dependency("d".to_string());
    assert_eq!(package.resolved(), "url");
    assert_eq!(package.sha512(), "sum");
    assert_eq!(names(package.dependencies()), vec!["a", "b"]);
    assert_eq!(names(package.peer_dependencies()), vec!["p"]);
    assert_eq!(names(package.dev_dependencies()), vec!["d"]);
    assert_eq!(KirboLockPackage::default(), KirboLockPackage::new(String::new(), String::new()));
}

#[test]
fn lock_keeps_maps_by_ascending_key() {
    let mut lock = KirboLock::new(1);
    lock.insert_binary("tsc".to_string(), "typescript@5.0.0".to_string());
    lock.insert_binary("prettier".to_string(), "prettier@3.0.0".to_string());
    lock.insert_package("b@1".to_string(), KirboLockPackage::default());
    lock.insert_package("a@1".to_string(), KirboLockPackage::default());
    lock.insert_package("b@1".to_string(), KirboLockPackage::new("u".to_string(), "s".to_string()));
    assert_eq!(lock.lock_version(), 1);
    assert_eq!(lock.binaries().len(), 2);
    assert_eq!(lock.binaries().name_at(0), "prettier");
    assert_eq!(lock.binaries().get("tsc").map(String::as_str), Some("typescript@5.0.0"));
    assert_eq!(lock.packages().len(), 2);
    assert_eq!(lock.packages().name_at(0), "a@1");
    assert_eq!(lock.packages().get("b@1").unwrap().resolved(), "u");
    assert_eq!(KirboLock::default(), KirboLock::new(0));
}

#[test]
fn build_records_each_resolved_package() {
    let mut resolver = Resolver::new();
    resolver.insert_document(
        "b".to_string(),
        RegistryDoc {
            dist_tags: vec![],
            versions: vec![entry("1.0.0", Some("sha512-b"), &["z", "a", "z"]), entry("0.9.0", None, &[])],
        },
    );
    resolver.insert_document(
        "a".to_string(),
        RegistryDoc { dist_tags: vec![], versions: vec![entry("2.1.0", None, &[])] },
    );
    resolver.insert_document(
        "z".to_string(),
        RegistryDoc { dist_tags: vec![], versions: vec![entry("0.0.1", Some("sha512-z"), &[])] },
    );
    let deps = vec![("b".to_string(), "^1.0.0".to_string())];
    let set = match resolver.resolve_dependencies(&deps, 0) {
        Resolution::Resolved(set) => set,
        other => panic!("{other:?}"),
    };
    let lock = KirboLock::build(&set);
    assert_eq!(lock.lock_version(), LOCK_VERSION);
    assert_eq!(lock.binaries().len(), 0);
    let packages = lock.packages();
    let keys: Vec<&str> = (0..packages.len()).map(|i| packages.name_at(i).as_str()).collect();
    assert_eq!(keys, vec!["a@2.1.0", "b@1.0.0", "z@0.0.1"]);
    let b = packages.get("b@1.0.0").unwrap();
    assert_eq!(b.resolved(), "https://registry.test/1.0.0.tgz");
    assert_eq!(b.sha512(), "sha512-b");
    assert_eq!(names(b.dependencies()), vec!["a", "z"]);
    assert_eq!(b.peer_dependencies().len(), 0);
    assert_eq!(b.dev_dependencies().len(), 0);
    let a = packages.get("a@2.1.0").unwrap();
    assert_eq!(a.sha512(), "");
    assert_eq!(a.dependencies().len(), 0);
}

#[test]
fn build_of_nothing_is_an_empty_lock() {
    let resolver = Resolver::new();
    let set = match resolver.resolve_dependencies(&vec![], 0) {
        Resolution::Resolved(set) => set,
        other => panic!("{other:?}"),
    };
    assert_eq!(KirboLock::build(&set), KirboLock::new(LOCK_VERSION));
}
