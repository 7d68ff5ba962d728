//! The lock file: which archive was chosen for each package, kept so that a
//! later install chooses the same.

use vstd::prelude::*;

pub mod laws;
pub mod parse;
pub mod scalar;
pub mod text;
pub mod unique;

use crate::npm::{EntryView, RegistryDocVersion};
use crate::resolver::ResolvedSet;
use crate::sorted::{
    ascending, keys, lemma_put_seen_through, lemma_slot_exists, put, put_name, seen_through, slot,
    SortedMap,
};

verus! {

/// The version of the lock file's layout that this library writes.
pub const LOCK_VERSION: usize = 1;

/// Why a lock file could not be written or read.
#[derive(Clone, Copy, Debug, PartialEq, Eq, Structural)]
pub enum LockError {
    /// The text is not a lock file.
    LockSerializationError,
}

/// A set of package names, kept in ascending order.
#[derive(Debug, PartialEq, Eq)]
pub struct NameSet {
    names: SortedMap<()>,
}

/// What the lock file records of one package.
#[derive(Debug, PartialEq, Eq)]
pub struct KirboLockPackage {
    resolved: String,
    sha512: String,
    dependencies: NameSet,
    peer_dependencies: NameSet,
    dev_dependencies: NameSet,
}

/// The lock file.
#[derive(Debug, PartialEq, Eq)]
pub struct KirboLock {
    lock_version: usize,
    binaries: SortedMap<String>,
    packages: SortedMap<KirboLockPackage>,
}

/// The mathematical value of a [`KirboLockPackage`]; each set as the
/// ascending list of its names.
pub ghost struct PackageView {
    pub resolved: Seq<char>,
    pub sha512: Seq<char>,
    pub dependencies: Seq<Seq<char>>,
    pub peer_dependencies: Seq<Seq<char>>,
    pub dev_dependencies: Seq<Seq<char>>,
}

/// The mathematical value of a [`KirboLock`]; each map as the list of its
/// entries by ascending key.
pub ghost struct LockView {
    pub lock_version: nat,
    pub binaries: Seq<(Seq<char>, Seq<char>)>,
    pub packages: Seq<(Seq<char>, PackageView)>,
}

impl PackageView {
    /// Each set's names ascend strictly.
    pub open spec fn wf(self) -> bool {
        &&& ascending(self.dependencies)
        &&& ascending(self.peer_dependencies)
        &&& ascending(self.dev_dependencies)
    }
}

impl LockView {
    /// The keys of each map ascend strictly, the version fits its type, and
    /// every package is well formed.
    pub open spec fn wf(self) -> bool {
        &&& self.lock_version <= usize::MAX
        &&& ascending(keys(self.binaries))
        &&& ascending(keys(self.packages))
        &&& forall|i: int| 0 <= i < self.packages.len() ==> (#[trigger] self.packages[i]).1.wf()
    }
}

impl View for NameSet {
    type V = Seq<Seq<char>>;

    closed spec fn view(&self) -> Seq<Seq<char>> {
        self.names.names()
    }
}

impl NameSet {
    /// The names ascend strictly.
    pub closed spec fn wf(&self) -> bool {
        self.names.wf()
    }

    /// Establishes what `wf` means for the view.
    pub proof fn lemma_wf(&self)
        ensures
            self.wf() == ascending(self@),
    {
    }

    /// An empty set.
    pub fn new() -> (r: NameSet)
        ensures
            r.wf(),
            r@ == Seq::<Seq<char>>::empty(),
    {
        let r = NameSet { names: SortedMap::new() };
        assert(r@ =~= Seq::<Seq<char>>::empty());
        r
    }

    /// The set of the given names, if they ascend strictly.
    pub fn from_names(names: Vec<String>) -> (r: Option<NameSet>)
        ensures
            match r {
                Some(set) => set.wf() && set@ == crate::options::strings_view(names@),
                None => !ascending(crate::options::strings_view(names@)),
            },
    {
        let ghost want = crate::options::strings_view(names@);
        let mut entries: Vec<(String, ())> = Vec::new();
        let mut names = names;
        let ghost all = names@;
        let mut k: usize = 0;
        while k < names.len()
            invariant
                k <= names.len(),
                names@.len() == all.len(),
                entries.len() == k,
                forall|j: int| 0 <= j < k ==> entries@[j].0@ == all[j]@,
                forall|j: int| k <= j < all.len() ==> names@[j] == all[j],
            decreases names.len() - k,
        {
            let mut name = String::new();
            core::mem::swap(&mut name, &mut names[k]);
            entries.push((name, ()));
            k += 1;
        }
        assert(crate::dict::names_of(entries@) =~= want);
        match SortedMap::from_entries(entries) {
            Some(sorted) => {
                let set = NameSet { names: sorted };
                Some(set)
            },
            None => None,
        }
    }

    /// The number of names.
    pub fn len(&self) -> (n: usize)
        ensures
            n == self@.len(),
    {
        self.names.len()
    }

    /// The `i`-th name in ascending order.
    pub fn name_at(&self, i: usize) -> (name: &String)
        requires
            i < self@.len(),
        ensures
            name@ == self@[i as int],
    {
        self.names.name_at(i)
    }

    /// Whether `name` is in the set.
    pub fn contains(&self, name: &str) -> (r: bool)
        requires
            self.wf(),
        ensures
            r == self@.contains(name@),
    {
        let r = self.names.get(name).is_some();
        proof {
            if self@.contains(name@) {
                let i = choose|i: int| 0 <= i < self@.len() && self@[i] == name@;
                assert(crate::dict::stands_at(self.names.names(), name@, i));
            }
            if self.names.has(name@) {
                let i = choose|i: int| crate::dict::stands_at(self.names.names(), name@, i);
                assert(self@[i] == name@);
            }
        }
        r
    }

    /// Adds `name` to the set.
    pub fn insert(&mut self, name: String)
        requires
            old(self).wf(),
        ensures
            final(self).wf(),
            final(self)@ == put_name(old(self)@, name@),
            forall|other: Seq<char>|
                final(self)@.contains(other) <==> other == name@ || old(self)@.contains(other),
    {
        let ghost before = self.names;
        self.names.insert(name, ());
        proof {
            assert(keys(before.listing()) =~= before.names());
            assert(keys(self.names.listing()) =~= self.names.names());
            crate::sorted::lemma_put_keys(before.listing(), name@, ());
            assert(self@ =~= put_name(old(self)@, name@));
            assert forall|other: Seq<char>|
                self@.contains(other) <==> other == name@ || old(self)@.contains(other) by {
                assert(self.names.map().dom().contains(other) == self.names.has(other));
                assert(before.map().dom().contains(other) == before.has(other));
                if self@.contains(other) {
                    let i = choose|i: int| 0 <= i < self@.len() && self@[i] == other;
                    assert(crate::dict::stands_at(self.names.names(), other, i));
                }
                if self.names.has(other) {
                    let i = choose|i: int| crate::dict::stands_at(self.names.names(), other, i);
                    assert(self@[i] == other);
                }
                if old(self)@.contains(other) {
                    let i = choose|i: int| 0 <= i < old(self)@.len() && old(self)@[i] == other;
                    assert(crate::dict::stands_at(before.names(), other, i));
                }
                if before.has(other) {
                    let i = choose|i: int| crate::dict::stands_at(before.names(), other, i);
                    assert(old(self)@[i] == other);
                }
            }
        }
    }
}

impl View for KirboLockPackage {
    type V = PackageView;

    closed spec fn view(&self) -> PackageView {
        PackageView {
            resolved: self.resolved@,
            sha512: self.sha512@,
            dependencies: self.dependencies@,
            peer_dependencies: self.peer_dependencies@,
            dev_dependencies: self.dev_dependencies@,
        }
    }
}

impl KirboLockPackage {
    /// Each set's names ascend strictly.
    pub closed spec fn wf(&self) -> bool {
        &&& self.dependencies.wf()
        &&& self.peer_dependencies.wf()
        &&& self.dev_dependencies.wf()
    }

    /// A well-formed package has a well-formed value.
    pub proof fn lemma_wf(&self)
        ensures
            self.wf() == self@.wf(),
    {
        self.dependencies.lemma_wf();
        self.peer_dependencies.lemma_wf();
        self.dev_dependencies.lemma_wf();
    }

    /// A package with its archive and checksum and no dependencies.
    pub fn new(resolved: String, sha512: String) -> (r: KirboLockPackage)
        ensures
            r.wf(),
            r@ == (PackageView {
                resolved: resolved@,
                sha512: sha512@,
                dependencies: Seq::empty(),
                peer_dependencies: Seq::empty(),
                dev_dependencies: Seq::empty(),
            }),
    {
        KirboLockPackage {
            resolved,
            sha512,
            dependencies: NameSet::new(),
            peer_dependencies: NameSet::new(),
            dev_dependencies: NameSet::new(),
        }
    }

    /// A package made of the given parts.
    pub fn from_parts(
        resolved: String,
        sha512: String,
        dependencies: NameSet,
        peer_dependencies: NameSet,
        dev_dependencies: NameSet,
    ) -> (r: KirboLockPackage)
        requires
            dependencies.wf(),
            peer_dependencies.wf(),
            dev_dependencies.wf(),
        ensures
            r.wf(),
            r@ == (PackageView {
                resolved: resolved@,
                sha512: sha512@,
                dependencies: dependencies@,
                peer_dependencies: peer_dependencies@,
                dev_dependencies: dev_dependencies@,
            }),
    {
        KirboLockPackage { resolved, sha512, dependencies, peer_dependencies, dev_dependencies }
    }

    /// Where the archive lies.
    pub fn resolved(&self) -> (r: &String)
        ensures
            r@ == self@.resolved,
    {
        &self.resolved
    }

    /// The checksum of the archive.
    pub fn sha512(&self) -> (r: &String)
        ensures
            r@ == self@.sha512,
    {
        &self.sha512
    }

    /// The names of the packages this one needs.
    pub fn dependencies(&self) -> (r: &NameSet)
        ensures
            r@ == self@.dependencies,
            self.wf() ==> r.wf(),
    {
        &self.dependencies
    }

    /// The names of the packages this one expects beside it.
    pub fn peer_dependencies(&self) -> (r: &NameSet)
        ensures
            r@ == self@.peer_dependencies,
            self.wf() ==> r.wf(),
    {
        &self.peer_dependencies
    }

    /// The names of the packages this one needs while it is developed.
    pub fn dev_dependencies(&self) -> (r: &NameSet)
        ensures
            r@ == self@.dev_dependencies,
            self.wf() ==> r.wf(),
    {
        &self.dev_dependencies
    }

    /// Records that this package needs `name`.
    pub fn insert_dependency(&mut self, name: String)
        requires
            old(self).wf(),
        ensures
            final(self).wf(),
            final(self)@.dependencies == put_name(old(self)@.dependencies, name@),
            forall|other: Seq<char>|
                final(self)@.dependencies.contains(other) <==> other == name@ || old(
                    self,
                )@.dependencies.contains(other),
            final(self)@ == (PackageView { dependencies: final(self)@.dependencies, ..old(self)@ }),
    {
        self.dependencies.insert(name);
    }

    /// Records that this package expects `name` beside it.
    pub fn insert_peer_dependency(&mut self, name: String)
        requires
            old(self).wf(),
        ensures
            final(self).wf(),
            final(self)@.peer_dependencies == put_name(old(self)@.peer_dependencies, name@),
            forall|other: Seq<char>|
                final(self)@.peer_dependencies.contains(other) <==> other == name@ || old(
                    self,
                )@.peer_dependencies.contains(other),
            final(self)@ == (PackageView {
                peer_dependencies: final(self)@.peer_dependencies,
                ..old(self)@
            }),
    {
        self.peer_dependencies.insert(name);
    }

    /// Records that this package needs `name` while it is developed.
    pub fn insert_dev_dependency(&mut self, name: String)
        requires
            old(self).wf(),
        ensures
            final(self).wf(),
            final(self)@.dev_dependencies == put_name(old(self)@.dev_dependencies, name@),
            forall|other: Seq<char>|
                final(self)@.dev_dependencies.contains(other) <==> other == name@ || old(
                    self,
                )@.dev_dependencies.contains(other),
            final(self)@ == (PackageView {
                dev_dependencies: final(self)@.dev_dependencies,
                ..old(self)@
            }),
    {
        self.dev_dependencies.insert(name);
    }
}

/// The binaries by ascending name, each target as its characters.
pub open spec fn binaries_view(listing: Seq<(Seq<char>, String)>) -> Seq<(Seq<char>, Seq<char>)> {
    Seq::new(listing.len(), |i: int| (listing[i].0, listing[i].1@))
}

/// The packages by ascending key, each as its value.
pub open spec fn packages_view(listing: Seq<(Seq<char>, KirboLockPackage)>) -> Seq<
    (Seq<char>, PackageView),
> {
    Seq::new(listing.len(), |i: int| (listing[i].0, listing[i].1@))
}

impl View for KirboLock {
    type V = LockView;

    closed spec fn view(&self) -> LockView {
        LockView {
            lock_version: self.lock_version as nat,
            binaries: binaries_view(self.binaries.listing()),
            packages: packages_view(self.packages.listing()),
        }
    }
}

/// The names that `deps` require, ascending, each once.
pub open spec fn dependency_names(deps: Seq<(Seq<char>, Seq<char>)>) -> Seq<Seq<char>>
    decreases deps.len(),
{
    if deps.len() == 0 {
        Seq::empty()
    } else {
        put_name(dependency_names(deps.drop_last()), deps.last().0)
    }
}

/// The key of a package in the lock file: its name, `@`, its version.
pub open spec fn lock_key(name: Seq<char>, version: Seq<char>) -> Seq<char> {
    name + seq!['@'] + version
}

/// What the lock file records of a chosen version: its archive, its
/// checksum (empty where the registry gives none) and the names of its
/// dependencies.
pub open spec fn lock_package(entry: EntryView) -> PackageView {
    PackageView {
        resolved: entry.dist.tarball,
        sha512: match entry.dist.integrity {
            Some(sum) => sum,
            None => Seq::empty(),
        },
        dependencies: dependency_names(entry.dependencies),
        peer_dependencies: Seq::empty(),
        dev_dependencies: Seq::empty(),
    }
}

/// The packages of the lock file for the versions chosen for `names`, put
/// in one after the other.
pub open spec fn lock_packages(names: Seq<Seq<char>>, chosen: Map<Seq<char>, EntryView>) -> Seq<
    (Seq<char>, PackageView),
>
    decreases names.len(),
{
    if names.len() == 0 {
        Seq::empty()
    } else {
        let name = names.last();
        put(
            lock_packages(names.drop_last(), chosen),
            lock_key(name, chosen[name].version),
            lock_package(chosen[name]),
        )
    }
}

/// The lock file for the versions chosen for `names`.
pub open spec fn built_lock(names: Seq<Seq<char>>, chosen: Map<Seq<char>, EntryView>) -> LockView {
    LockView {
        lock_version: LOCK_VERSION as nat,
        binaries: Seq::empty(),
        packages: lock_packages(names, chosen),
    }
}

impl Default for KirboLock {
    fn default() -> (r: KirboLock)
        ensures
            r.wf(),
            r@ == (LockView { lock_version: 0, binaries: Seq::empty(), packages: Seq::empty() }),
    {
        KirboLock::new(0)
    }
}

impl Default for KirboLockPackage {
    fn default() -> (r: KirboLockPackage)
        ensures
            r.wf(),
            r@ == (PackageView {
                resolved: Seq::empty(),
                sha512: Seq::empty(),
                dependencies: Seq::empty(),
                peer_dependencies: Seq::empty(),
                dev_dependencies: Seq::empty(),
            }),
    {
        KirboLockPackage::new(String::new(), String::new())
    }
}

impl KirboLock {
    /// The keys of both maps ascend strictly and every package is well formed.
    pub closed spec fn wf(&self) -> bool {
        &&& self.binaries.wf()
        &&& self.packages.wf()
        &&& forall|i: int|
            0 <= i < self.packages.entries().len() ==> (#[trigger] self.packages.entries()[i]).1.wf()
    }

    /// A well-formed lock file has a well-formed value.
    pub proof fn lemma_wf(&self)
        requires
            self.wf(),
        ensures
            self@.wf(),
    {
        assert(keys(self@.binaries) =~= self.binaries.names());
        assert(keys(self@.packages) =~= self.packages.names());
        assert forall|i: int| 0 <= i < self@.packages.len() implies (#[trigger] self@.packages[i]).1.wf() by {
            let package = self.packages.entries()[i].1;
            assert(package.wf());
            package.lemma_wf();
        }
    }

    /// A lock file of the given layout version that records nothing.
    pub fn new(lock_version: usize) -> (r: KirboLock)
        ensures
            r.wf(),
            r@ == (LockView {
                lock_version: lock_version as nat,
                binaries: Seq::empty(),
                packages: Seq::empty(),
            }),
    {
        let r = KirboLock { lock_version, binaries: SortedMap::new(), packages: SortedMap::new() };
        assert(r@.binaries =~= Seq::empty());
        assert(r@.packages =~= Seq::empty());
        r
    }

    /// A lock file made of the given parts.
    pub fn from_parts(
        lock_version: usize,
        binaries: SortedMap<String>,
        packages: SortedMap<KirboLockPackage>,
    ) -> (r: KirboLock)
        requires
            binaries.wf(),
            packages.wf(),
            forall|i: int| 0 <= i < packages.entries().len() ==> (#[trigger] packages.entries()[i]).1.wf(),
        ensures
            r.wf(),
            r@ == (LockView {
                lock_version: lock_version as nat,
                binaries: binaries_view(binaries.listing()),
                packages: packages_view(packages.listing()),
            }),
    {
        KirboLock { lock_version, binaries, packages }
    }

    /// The version of the layout.
    pub fn lock_version(&self) -> (r: usize)
        ensures
            r == self@.lock_version,
    {
        self.lock_version
    }

    /// The binaries: for each name the package that provides it.
    pub fn binaries(&self) -> (r: &SortedMap<String>)
        ensures
            binaries_view(r.listing()) == self@.binaries,
            self.wf() ==> r.wf(),
    {
        &self.binaries
    }

    /// The packages, each under its key.
    pub fn packages(&self) -> (r: &SortedMap<KirboLockPackage>)
        ensures
            packages_view(r.listing()) == self@.packages,
            self.wf() ==> r.wf(),
            self.wf() ==> forall|i: int|
                0 <= i < r.entries().len() ==> (#[trigger] r.entries()[i]).1.wf(),
    {
        &self.packages
    }

    /// Records that the binary `name` comes from the package under `target`.
    pub fn insert_binary(&mut self, name: String, target: String)
        requires
            old(self).wf(),
        ensures
            final(self).wf(),
            final(self)@ == (LockView {
                binaries: put(old(self)@.binaries, name@, target@),
                ..old(self)@
            }),
    {
        let ghost before = self.binaries.listing();
        self.binaries.insert(name, target);
        proof {
            let f = |s: String| s@;
            assert(seen_through(before, f, binaries_view(before)));
            lemma_put_seen_through(before, f, binaries_view(before), name@, target);
            assert(self@.binaries =~= put(old(self)@.binaries, name@, target@));
        }
    }

    /// Records `package` under `key`, in place of what was recorded there.
    pub fn insert_package(&mut self, key: String, package: KirboLockPackage)
        requires
            old(self).wf(),
            package.wf(),
        ensures
            final(self).wf(),
            final(self)@ == (LockView {
                packages: put(old(self)@.packages, key@, package@),
                ..old(self)@
            }),
    {
        let ghost before = self.packages.listing();
        let ghost old_entries = self.packages.entries();
        self.packages.insert(key, package);
        proof {
            let f = |p: KirboLockPackage| p@;
            assert(seen_through(before, f, packages_view(before)));
            lemma_put_seen_through(before, f, packages_view(before), key@, package);
            assert(self@.packages =~= put(old(self)@.packages, key@, package@));
            let after = self.packages.listing();
            assert(keys(before) =~= crate::dict::names_of(old_entries));
            lemma_slot_exists(keys(before), key@);
            let i = slot(keys(before), key@);
            assert forall|j: int| 0 <= j < self.packages.entries().len() implies (
            #[trigger] self.packages.entries()[j]).1.wf() by {
                assert(after[j].1 == self.packages.entries()[j].1);
                if i < before.len() && before[i].0 == key@ {
                    if j != i {
                        assert(after[j] == before[j]);
                        assert(old_entries[j].1.wf());
                    }
                } else {
                    if j < i {
                        assert(after[j] == before[j]);
                        assert(old_entries[j].1.wf());
                    } else if j > i {
                        assert(after[j] == before[j - 1]);
                        assert(old_entries[j - 1].1.wf());
                    }
                }
            }
        }
    }

    /// The lock file for a resolved set: one package for each resolved name,
    /// under the name, `@` and the chosen version, with the archive, the
    /// checksum and the names of the dependencies of that version.
    pub fn build(resolved: &ResolvedSet) -> (lock: KirboLock)
        requires
            resolved.wf(),
        ensures
            lock.wf(),
            lock@ == built_lock(resolved.names(), resolved.chosen()),
    {
        let mut lock = KirboLock::new(LOCK_VERSION);
        let ghost names = resolved.names();
        let ghost chosen = resolved.chosen();
        let mut k: usize = 0;
        assert(names.take(0) =~= Seq::<Seq<char>>::empty());
        while k < resolved.len()
            invariant
                k <= resolved.names().len(),
                resolved.wf(),
                names == resolved.names(),
                chosen == resolved.chosen(),
                lock.wf(),
                lock@ == built_lock(names.take(k as int), chosen),
            decreases resolved.names().len() - k,
        {
            let name = resolved.name_at(k);
            let entry = resolved.entry_at(k);
            let mut key = name.clone();
            key.push('@');
            key.append(entry.version.as_str());
            let package = package_of(entry);
            proof {
                assert(names.take(k + 1).drop_last() =~= names.take(k as int));
                assert(names.take(k + 1).last() == names[k as int]);
                assert(key@ =~= lock_key(name@, entry@.version));
            }
            lock.insert_package(key, package);
            k += 1;
        }
        assert(names.take(k as int) =~= names);
        lock
    }
}

/// What the lock file records of a chosen version.
pub fn package_of(entry: &RegistryDocVersion) -> (package: KirboLockPackage)
    ensures
        package.wf(),
        package@ == lock_package(entry@),
{
    let sha512 = match &entry.dist.integrity {
        Some(sum) => sum.clone(),
        None => String::new(),
    };
    let mut package = KirboLockPackage::new(entry.dist.tarball.clone(), sha512);
    let ghost deps = entry@.dependencies;
    let mut k: usize = 0;
    assert(deps.take(0) =~= Seq::<(Seq<char>, Seq<char>)>::empty());
    while k < entry.dependencies.len()
        invariant
            k <= entry.dependencies.len(),
            deps == entry@.dependencies,
            package.wf(),
            package@ == (PackageView {
                dependencies: dependency_names(deps.take(k as int)),
                ..lock_package(entry@)
            }),
        decreases entry.dependencies.len() - k,
    {
        proof {
            assert(deps.take(k + 1).drop_last() =~= deps.take(k as int));
            assert(deps.take(k + 1).last() == deps[k as int]);
        }
        package.insert_dependency(entry.dependencies[k].0.clone());
        k += 1;
    }
    assert(deps.take(k as int) =~= deps);
    package
}

} // verus!
