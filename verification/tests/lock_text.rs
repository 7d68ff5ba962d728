use kirbo::lock::{KirboLock, KirboLockPackage, LockError};
use serde_yaml::{Mapping, Number, Value};

fn text(s: &str) -> Value {
    Value::String(s.to_string())
}

/// The same lock file, as the tree that a YAML reader sees.
fn tree(lock: &KirboLock) -> Value {
    let mut top = Mapping::new();
    top.insert(text("lockVersion"), Value::Number(Number::from(lock.lock_version() as u64)));
    let binaries = lock.binaries();
    if binaries.len() > 0 {
        let mut map = Mapping::new();
        for i in 0..binaries.len() {
            map.insert(text(binaries.name_at(i)), text(binaries.value_at(i)));
        }
        top.insert(text("binaries"), Value::Mapping(map));
    }
    let packages = lock.packages();
    if packages.len() > 0 {
        let mut map = Mapping::new();
        for i in 0..packages.len() {
            let package = packages.value_at(i);
            let mut fields = Mapping::new();
            fields.insert(text("resolved"), text(package.resolved()));
            fields.insert(text("sha512"), text(package.sha512()));
            for (name, set) in [
                ("dependencies", package.dependencies()),
                ("peerDependencies", package.peer_dependencies()),
                ("devDependencies", package.dev_dependencies()),
            ] {
                if set.len() > 0 {
                    let items = (0..set.len()).map(|j| text(set.name_at(j))).collect();
                    fields.insert(text(name), Value::Sequence(items));
                }
            }
            map.insert(text(packages.name_at(i)), Value::Mapping(fields));
        }
        top.insert(text("packages"), Value::Mapping(map));
    }
    Value::Mapping(top)
}

fn prettier() -> KirboLock {
    let mut lock = KirboLock::new(1);
    lock.insert_binary("prettier".to_string(), "prettier@3.0.0".to_string());
    lock.insert_package(
        "prettier@3.0.0".to_string(),
        KirboLockPackage::new(
            "https://registry.npmjs.org/prettier/-/prettier-3.0.0.tgz".to_string(),
            "abcdefghijklmnopqrstuvwxyz".to_string(),
        ),
    );
    lock
}

fn succulent() -> KirboLock {
    let mut lock = KirboLock::new(1);
    lock.insert_package(
        "succulent@^0.20.0".to_string(),
        KirboLockPackage::new(
            "https://registry.npmjs.org/succulent/-/succulent-0.20.0.tgz".to_string(),
            "abcdefghijklmnopqrstuvwxyz".to_string(),
        ),
    );
    lock
}

fn rich() -> KirboLock {
    let mut lock = KirboLock::new(1);
    lock.insert_binary("tsc".to_string(), "typescript@5.0.0".to_string());
    lock.insert_binary("a b".to_string(), "it's".to_string());
    let mut package = KirboLockPackage::new("https://x/y.tgz".to_string(), "".to_string());
    package.insert_dependency("@scope/name".to_string());
    package.insert_dependency("zeta".to_string());
    package.insert_dependency("true".to_string());
    package.insert_peer_dependency("peer".to_string());
    package.insert_dev_dependency("123".to_string());
    lock.insert_package("@scope/pkg@1.0.0".to_string(), package);
    lock.insert_package(
        "plain@1.0".to_string(),
        KirboLockPackage::new("1.0".to_string(), "null".to_string()),
    );
    lock
}

const PRETTIER: &str = "lockVersion: 1
binaries:
  prettier: prettier@3.0.0
packages:
  prettier@3.0.0:
    resolved: https://registry.npmjs.org/prettier/-/prettier-3.0.0.tgz
    sha512: abcdefghijklmnopqrstuvwxyz
";

const SUCCULENT: &str = "lockVersion: 1
packages:
  succulent@^0.20.0:
    resolved: https://registry.npmjs.org/succulent/-/succulent-0.20.0.tgz
    sha512: abcdefghijklmnopqrstuvwxyz
";

#[test]
fn lock_serialization_prettier() {
    let lock_object = prettier();
    assert_eq!(lock_object.serialize(), PRETTIER);
    assert_eq!(KirboLock::deserialize(PRETTIER).unwrap(), lock_object);
    assert_eq!(serde_yaml::to_string(&tree(&lock_object)).unwrap(), PRETTIER);
}

#[test]
fn lock_serialization_succulent() {
    let lock_object = succulent();
    assert_eq!(lock_object.serialize(), SUCCULENT);
    assert_eq!(KirboLock::deserialize(SUCCULENT).unwrap(), lock_object);
    assert_eq!(serde_yaml::to_string(&tree(&lock_object)).unwrap(), SUCCULENT);
}

#[test]
fn text_agrees_with_a_yaml_writer_on_quoted_strings() {
    let lock = rich();
    assert_eq!(lock.serialize(), serde_yaml::to_string(&tree(&lock)).unwrap());
}

#[test]
fn text_reads_as_the_same_tree_in_a_yaml_reader() {
    let lock = odd();
    let read: Value = serde_yaml::from_str(&lock.serialize()).unwrap();
    assert_eq!(read, tree(&lock));
}

fn odd() -> KirboLock {
    let mut lock = rich();
    lock.insert_binary("line\nfeed".to_string(), "tab\there \"quoted\" back\\slash".to_string());
    lock.insert_binary("ünï".to_string(), "0x1F".to_string());
    lock.insert_binary("colon:".to_string(), "a: b # c".to_string());
    lock.insert_binary("".to_string(), " ".to_string());
    lock.insert_binary("'".to_string(), "''".to_string());
    lock.insert_binary("trailing ".to_string(), "a:b".to_string());
    lock.insert_binary("key: with colon".to_string(), "x #y".to_string());
    lock.insert_binary("\u{10FFFF}\u{0}".to_string(), "\u{7f}".to_string());
    lock
}

#[test]
fn quoting_of_each_kind_of_string() {
    let mut lock = KirboLock::new(7);
    for (name, target) in [
        ("plain", "a:b"),
        ("with space", "x#y"),
        ("q1", "ends:"),
        ("q2", "a: b"),
        ("q3", "a #b"),
        ("q4", "True"),
        ("q5", "9lives"),
        ("q6", "it's"),
        ("q7", "'"),
        ("q8", "tab\t"),
        ("q9", "say \"hi\" \\ é"),
    ] {
        lock.insert_binary(name.to_string(), target.to_string());
    }
    let expected = [
        "lockVersion: 7",
        "binaries:",
        "  plain: a:b",
        "  q1: 'ends:'",
        "  q2: 'a: b'",
        "  q3: 'a #b'",
        "  q4: 'True'",
        "  q5: '9lives'",
        "  q6: it's",
        "  q7: ''''",
        "  q8: \"tab\\U00000009\"",
        "  q9: \"say \\\"hi\\\" \\\\ \\U000000E9\"",
        "  with space: x#y",
        "",
    ]
    .join("\n");
    assert_eq!(lock.serialize(), expected);
    assert_eq!(KirboLock::deserialize(&expected), Ok(lock));
}

#[test]
fn text_round_trip_of_every_kind_of_string() {
    for lock in [KirboLock::new(0), KirboLock::default(), prettier(), succulent(), rich(), odd()] {
        let text = lock.serialize();
        assert_eq!(KirboLock::deserialize(&text), Ok(lock));
    }
    let lock = KirboLock::new(usize::MAX);
    assert_eq!(KirboLock::deserialize(&lock.serialize()), Ok(lock));
}

#[test]
fn accepted_text_is_written_back_unchanged() {
    for lock in [prettier(), rich(), odd()] {
        let text = lock.serialize();
        assert_eq!(KirboLock::deserialize(&text).unwrap().serialize(), text);
    }
}

#[test]
fn empty_maps_and_sets_are_left_out() {
    assert_eq!(KirboLock::new(1).serialize(), "lockVersion: 1\n");
    let mut lock = KirboLock::new(1);
    let mut package = KirboLockPackage::new("u".to_string(), "s".to_string());
    package.insert_dev_dependency("d".to_string());
    lock.insert_package("k".to_string(), package);
    assert_eq!(
        lock.serialize(),
        "lockVersion: 1\npackages:\n  k:\n    resolved: u\n    sha512: s\n    devDependencies:\n    - d\n"
    );
}

#[test]
fn malformed_text_is_rejected() {
    let bad = [
        "",
        "\n",
        "lockVersion: 1",
        "lockVersion: 1\n\n",
        "lockVersion: 01\n",
        "lockVersion: one\n",
        "lockVersion:1\n",
        " lockVersion: 1\n",
        "lockVersion: 1 \n",
        "lockVersion: 99999999999999999999999999\n",
        "binaries:\n  a: b\n",
        "lockVersion: 1\nbinaries:\n",
        "lockVersion: 1\npackages:\n",
        "lockVersion: 1\nbinaries: {}\n",
        "lockVersion: 1\nbinaries:\n  b: x\n  a: y\n",
        "lockVersion: 1\nbinaries:\n  a: x\n  a: y\n",
        "lockVersion: 1\nbinaries:\n  a: 'x\n",
        "lockVersion: 1\nbinaries:\n  'a': x\n",
        "lockVersion: 1\nbinaries:\n  a: \"x\"\n",
        "lockVersion: 1\nbinaries:\n  a:  x\n",
        "lockVersion: 1\nbinaries:\n    a: x\n",
        "lockVersion: 1\nbinaries:\n  a: x\nlockVersion: 1\n",
        "lockVersion: 1\npackages:\n  k:\n    resolved: u\n",
        "lockVersion: 1\npackages:\n  k:\n    sha512: s\n    resolved: u\n",
        "lockVersion: 1\npackages:\n  k:\n    resolved: u\n    sha512: s\n    dependencies:\n",
        "lockVersion: 1\npackages:\n  k:\n    resolved: u\n    sha512: s\n    dependencies:\n    - b\n    - a\n",
        "lockVersion: 1\npackages:\n  k:\n    resolved: u\n    sha512: s\n    devDependencies:\n    - a\n    dependencies:\n    - a\n",
        "lockVersion: 1\npackages:\n  k:\n    resolved: u\n    sha512: s\n    - a\n",
        "lockVersion: 1\npackages:\n  k:\n    resolved: u\n    sha512: s\n    extra: 1\n",
        "lockVersion: 1\npackages:\n  k: v\n",
        "lockVersion: 1\npackages:\n  k:\n    resolved: u\n    sha512: s\nbinaries:\n  a: b\n",
        "lockVersion: 1\r\n",
        "# comment\nlockVersion: 1\n",
        "lockVersion: 1\nbinaries:\n  a: \"\\U0000D800\"\n",
        "lockVersion: 1\nbinaries:\n  a: \"\\U00000041\"\n",
        "lockVersion: 1\nbinaries:\n  a: \"\\n\"\n",
    ];
    for text in bad {
        assert_eq!(
            KirboLock::deserialize(text),
            Err(LockError::LockSerializationError),
            "{text:?}"
        );
    }
}
