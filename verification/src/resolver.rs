//! Resolution of a dependency map into one chosen archive per package name.
//!
//! The resolver owns the registry documents fetched so far. A resolution walks
//! the dependencies depth first over those documents. Where it needs a
//! document that is not there yet it stops and names the package; the caller
//! fetches the document, hands it over and asks again. The walk never asks for
//! a document that the resolver holds, so no package is fetched twice.

use vstd::prelude::*;
use crate::dict::Dict;
use crate::npm::{pairs_view, DocView, EntryView, RegistryDoc, RegistryDocVersion};
use crate::semver::compare::precedes;
use crate::semver::range::{parse_range, range_matches, RangeView};
use crate::semver::{parse_version, SemverRange, Version, VersionView};

pub mod laws;

verus! {

/// The deepest level of transitive dependencies that a resolution walks.
pub const DEPTH_LIMIT: usize = 100;

/// Why a resolution failed.
#[derive(Debug, PartialEq, Eq)]
pub enum ResolveError {
    /// The range that a package is required in cannot be read.
    InvalidRange { name: String, range: String },
    /// No published version of the package lies in the required range.
    NoSatisfyingVersion { name: String, range: String },
    /// The dependencies nest deeper than [`DEPTH_LIMIT`].
    RecursionDepthExceeded,
}

/// The mathematical value of a [`ResolveError`].
pub ghost enum FailureView {
    InvalidRange { name: Seq<char>, range: Seq<char> },
    NoSatisfyingVersion { name: Seq<char>, range: Seq<char> },
    RecursionDepthExceeded,
}

impl View for ResolveError {
    type V = FailureView;

    open spec fn view(&self) -> FailureView {
        match self {
            ResolveError::InvalidRange { name, range } => FailureView::InvalidRange {
                name: name@,
                range: range@,
            },
            ResolveError::NoSatisfyingVersion { name, range } => FailureView::NoSatisfyingVersion {
                name: name@,
                range: range@,
            },
            ResolveError::RecursionDepthExceeded => FailureView::RecursionDepthExceeded,
        }
    }
}

/// Why a walk stopped before its end.
pub ghost enum Halt {
    /// The document of this package is needed and not at hand.
    Missing(Seq<char>),
    /// The resolution failed.
    Failed(FailureView),
}

/// What a walk has gathered: the names whose documents it has looked at, and
/// the published version chosen for each name resolved so far.
pub ghost struct Walk {
    pub visited: Set<Seq<char>>,
    pub resolved: Map<Seq<char>, EntryView>,
}

/// The entry at `j` has a key that reads as a version, and `range` admits it.
pub open spec fn candidate(versions: Seq<(Seq<char>, EntryView)>, range: RangeView, j: int) -> bool {
    &&& 0 <= j < versions.len()
    &&& parse_version(versions[j].0) is Some
    &&& range_matches(range, parse_version(versions[j].0)->0)
}

/// The version that the key of the entry at `j` reads as.
pub open spec fn version_at(versions: Seq<(Seq<char>, EntryView)>, j: int) -> VersionView {
    parse_version(versions[j].0)->0
}

/// The entry at `i` is the one to choose for `range`: it is a candidate, no
/// candidate is higher, and every candidate before it is lower.
pub open spec fn is_selected(versions: Seq<(Seq<char>, EntryView)>, range: RangeView, i: int) -> bool {
    &&& candidate(versions, range, i)
    &&& forall|j: int| #[trigger]
        candidate(versions, range, j) ==> !precedes(version_at(versions, i), version_at(versions, j))
    &&& forall|j: int|
        0 <= j < i && #[trigger] candidate(versions, range, j) ==> precedes(
            version_at(versions, j),
            version_at(versions, i),
        )
}

/// The index of the entry to choose for `range`, if any entry is a candidate.
pub open spec fn selection(versions: Seq<(Seq<char>, EntryView)>, range: RangeView) -> Option<int> {
    if exists|i: int| is_selected(versions, range, i) {
        Some(choose|i: int| is_selected(versions, range, i))
    } else {
        None
    }
}

/// At most one entry is the one to choose.
pub proof fn lemma_selected_is_unique(
    versions: Seq<(Seq<char>, EntryView)>,
    range: RangeView,
    i: int,
    j: int,
)
    requires
        is_selected(versions, range, i),
        is_selected(versions, range, j),
    ensures
        i == j,
{
}

/// The dependencies whose names the walk has not visited.
pub open spec fn unvisited(deps: Seq<(Seq<char>, Seq<char>)>, visited: Set<Seq<char>>) -> Seq<
    (Seq<char>, Seq<char>),
>
    decreases deps.len(),
{
    if deps.len() == 0 {
        Seq::empty()
    } else if visited.contains(deps.last().0) {
        unvisited(deps.drop_last(), visited)
    } else {
        unvisited(deps.drop_last(), visited).push(deps.last())
    }
}

/// Resolves one dependency and, below it, the dependencies of the version
/// chosen for it.
///
/// The walk fails where `depth` is over the limit. It stops where the
/// package's document is not at hand. It fails where the range cannot be read
/// or admits no published version. Otherwise it marks the name as visited,
/// records the highest admitted version as the one chosen, and goes on, one
/// level deeper, with those dependencies of that version whose names have not
/// been visited by then.
pub open spec fn resolve_one(
    docs: Map<Seq<char>, DocView>,
    dep: (Seq<char>, Seq<char>),
    depth: nat,
    walk: Walk,
) -> Result<Walk, Halt>
    decreases DEPTH_LIMIT + 1 - depth, 0nat,
{
    if depth > DEPTH_LIMIT {
        Err(Halt::Failed(FailureView::RecursionDepthExceeded))
    } else if !docs.dom().contains(dep.0) {
        Err(Halt::Missing(dep.0))
    } else {
        match parse_range(dep.1) {
            Err(_) => Err(Halt::Failed(FailureView::InvalidRange { name: dep.0, range: dep.1 })),
            Ok(range) => match selection(docs[dep.0].versions, range) {
                None => Err(
                    Halt::Failed(FailureView::NoSatisfyingVersion { name: dep.0, range: dep.1 }),
                ),
                Some(i) => {
                    let entry = docs[dep.0].versions[i].1;
                    let next = Walk {
                        visited: walk.visited.insert(dep.0),
                        resolved: walk.resolved.insert(dep.0, entry),
                    };
                    resolve_all(docs, unvisited(entry.dependencies, next.visited), depth + 1, next)
                },
            },
        }
    }
}

/// Resolves the dependencies in `deps` one after the other, each with what
/// the ones before it have gathered, and stops at the first that stops.
pub open spec fn resolve_all(
    docs: Map<Seq<char>, DocView>,
    deps: Seq<(Seq<char>, Seq<char>)>,
    depth: nat,
    walk: Walk,
) -> Result<Walk, Halt>
    decreases DEPTH_LIMIT + 1 - depth, deps.len() + 1,
{
    if deps.len() == 0 {
        Ok(walk)
    } else {
        match resolve_one(docs, deps[0], depth, walk) {
            Err(halt) => Err(halt),
            Ok(next) => resolve_all(docs, deps.drop_first(), depth, next),
        }
    }
}

/// A walk that has gathered nothing yet.
pub open spec fn fresh_walk() -> Walk {
    Walk { visited: Set::empty(), resolved: Map::empty() }
}

/// The index of the entry to choose for `range`: the highest version that
/// the range admits, and the first of those where several are equally high.
/// Entries whose key does not read as a version are passed over.
pub fn select_version(versions: &Vec<(String, RegistryDocVersion)>, range: &SemverRange) -> (r:
    Option<usize>)
    ensures
        match r {
            Some(i) => is_selected(crate::npm::versions_view(versions@), range@, i as int),
            None => forall|j: int| !candidate(crate::npm::versions_view(versions@), range@, j),
        },
        r == match selection(crate::npm::versions_view(versions@), range@) {
            Some(i) => Some(i as usize),
            None => None,
        },
{
    let ghost view = crate::npm::versions_view(versions@);
    let mut best: Option<(usize, Version)> = None;
    let mut k: usize = 0;
    while k < versions.len()
        invariant
            k <= versions.len(),
            view == crate::npm::versions_view(versions@),
            match best {
                Some((i, v)) => {
                    &&& i < k
                    &&& candidate(view, range@, i as int)
                    &&& v@ == version_at(view, i as int)
                    &&& forall|j: int|
                        0 <= j < k && #[trigger] candidate(view, range@, j) ==> !precedes(
                            version_at(view, i as int),
                            version_at(view, j),
                        )
                    &&& forall|j: int|
                        0 <= j < i && #[trigger] candidate(view, range@, j) ==> precedes(
                            version_at(view, j),
                            version_at(view, i as int),
                        )
                },
                None => forall|j: int| 0 <= j < k ==> !candidate(view, range@, j),
            },
        decreases versions.len() - k,
    {
        match Version::parse(versions[k].0.as_str()) {
            Ok(v) => {
                if range.matches(&v) {
                    let higher = match &best {
                        Some((_, top)) => *top < v,
                        None => true,
                    };
                    if higher {
                        best = Some((k, v));
                    }
                }
            },
            Err(_) => {},
        }
        k += 1;
    }
    match best {
        Some((i, _)) => {
            proof {
                assert(is_selected(view, range@, i as int));
                let c = selection(view, range@)->0;
                lemma_selected_is_unique(view, range@, i as int, c);
            }
            Some(i)
        },
        None => None,
    }
}

/// How a resolution over the documents at hand ended.
pub ghost enum OutcomeView {
    Resolved(Map<Seq<char>, EntryView>),
    Missing(Seq<char>),
    Failed(FailureView),
}

/// How the resolution of `deps`, started at `depth` with nothing gathered,
/// ends over the documents `docs`.
pub open spec fn resolve(docs: Map<Seq<char>, DocView>, deps: Seq<(Seq<char>, Seq<char>)>, depth: nat) -> OutcomeView {
    match resolve_all(docs, deps, depth, fresh_walk()) {
        Ok(walk) => OutcomeView::Resolved(walk.resolved),
        Err(Halt::Missing(name)) => OutcomeView::Missing(name),
        Err(Halt::Failed(failure)) => OutcomeView::Failed(failure),
    }
}

/// The published version chosen for each resolved package name, and with it
/// the archive to fetch.
#[derive(Debug)]
pub struct ResolvedSet {
    packages: Dict<RegistryDocVersion>,
}

/// The archive of each chosen version.
pub open spec fn archives(chosen: Map<Seq<char>, EntryView>) -> Map<Seq<char>, Seq<char>> {
    Map::new(|name: Seq<char>| chosen.dom().contains(name), |name: Seq<char>| chosen[name].dist.tarball)
}

impl View for ResolvedSet {
    type V = Map<Seq<char>, Seq<char>>;

    /// The archive chosen for each name.
    open spec fn view(&self) -> Map<Seq<char>, Seq<char>> {
        archives(self.chosen())
    }
}

impl ResolvedSet {
    /// The published version chosen for each name.
    pub closed spec fn chosen(&self) -> Map<Seq<char>, EntryView> {
        Map::new(
            |name: Seq<char>| self.packages.has(name),
            |name: Seq<char>| self.packages.value(name)@,
        )
    }

    /// Every name occurs once.
    pub closed spec fn wf(&self) -> bool {
        self.packages.wf()
    }

    /// The names in the order in which they were first resolved.
    pub closed spec fn names(&self) -> Seq<Seq<char>> {
        self.packages.names()
    }

    /// The names are those of the map, each once.
    pub proof fn lemma_names(&self)
        requires
            self.wf(),
        ensures
            crate::dict::distinct(self.names()),
            forall|name: Seq<char>| self.chosen().dom().contains(name) <==> self.names().contains(name),
    {
        assert forall|name: Seq<char>| self.chosen().dom().contains(name) <==> self.names().contains(
            name,
        ) by {
            if self.chosen().dom().contains(name) {
                let i = choose|i: int| crate::dict::stands_at(self.packages.names(), name, i);
                assert(self.names()[i] == name);
            }
            if self.names().contains(name) {
                let i = choose|i: int| 0 <= i < self.names().len() && self.names()[i] == name;
                assert(crate::dict::stands_at(self.packages.names(), name, i));
            }
        }
    }

    /// A set that holds nothing.
    pub fn new() -> (r: ResolvedSet)
        ensures
            r.wf(),
            r.chosen() == Map::<Seq<char>, EntryView>::empty(),
            r.names().len() == 0,
    {
        let r = ResolvedSet { packages: Dict::new() };
        assert(r.chosen() =~= Map::<Seq<char>, EntryView>::empty());
        r
    }

    /// Records `entry` as the version chosen for `name`, in place of an
    /// earlier one.
    pub fn insert(&mut self, name: String, entry: RegistryDocVersion)
        requires
            old(self).wf(),
        ensures
            final(self).wf(),
            final(self).chosen() == old(self).chosen().insert(name@, entry@),
    {
        let ghost before = self.packages;
        self.packages.insert(name, entry);
        proof {
            assert(self.packages.map() == before.map().insert(name@, entry));
            assert forall|other: Seq<char>| self.packages.has(other) == (other == name@
                || before.has(other)) by {
                assert(self.packages.map().dom().contains(other) == self.packages.has(other));
                assert(before.map().dom().contains(other) == before.has(other));
            }
            assert forall|other: Seq<char>| self.packages.has(other) implies self.packages.value(
                other,
            ) == if other == name@ {
                entry
            } else {
                before.value(other)
            } by {
                assert(self.packages.map()[other] == self.packages.value(other));
                if other != name@ {
                    assert(before.map()[other] == before.value(other));
                }
            }
            assert(self.chosen() =~= old(self).chosen().insert(name@, entry@));
        }
    }

    /// The number of resolved packages.
    pub fn len(&self) -> (n: usize)
        ensures
            n == self.names().len(),
    {
        self.packages.len()
    }

    /// The archive chosen for `name`, if `name` was resolved.
    pub fn get(&self, name: &str) -> (r: Option<&String>)
        requires
            self.wf(),
        ensures
            match r {
                Some(tarball) => self@.dom().contains(name@) && tarball@ == self@[name@],
                None => !self@.dom().contains(name@),
            },
    {
        match self.packages.get(name) {
            Some(entry) => Some(&entry.dist.tarball),
            None => None,
        }
    }

    /// The published version chosen for `name`, if `name` was resolved.
    pub fn entry(&self, name: &str) -> (r: Option<&RegistryDocVersion>)
        requires
            self.wf(),
        ensures
            match r {
                Some(entry) => self.chosen().dom().contains(name@) && entry@ == self.chosen()[name@],
                None => !self.chosen().dom().contains(name@),
            },
    {
        self.packages.get(name)
    }

    /// The `i`-th resolved name.
    pub fn name_at(&self, i: usize) -> (name: &String)
        requires
            self.wf(),
            i < self.names().len(),
        ensures
            name@ == self.names()[i as int],
            self.chosen().dom().contains(name@),
    {
        proof {
            self.packages.lemma_value_at(i as int);
        }
        self.packages.name_at(i)
    }

    /// The published version chosen for the `i`-th resolved name.
    pub fn entry_at(&self, i: usize) -> (entry: &RegistryDocVersion)
        requires
            self.wf(),
            i < self.names().len(),
        ensures
            self.chosen().dom().contains(self.names()[i as int]),
            entry@ == self.chosen()[self.names()[i as int]],
    {
        proof {
            self.packages.lemma_value_at(i as int);
        }
        self.packages.value_at(i)
    }

    /// The archive chosen for the `i`-th resolved name.
    pub fn tarball_at(&self, i: usize) -> (tarball: &String)
        requires
            self.wf(),
            i < self.names().len(),
        ensures
            self@.dom().contains(self.names()[i as int]),
            tarball@ == self@[self.names()[i as int]],
    {
        proof {
            self.packages.lemma_value_at(i as int);
        }
        &self.packages.value_at(i).dist.tarball
    }
}

/// How a resolution over the documents at hand ended.
#[derive(Debug)]
pub enum Resolution {
    /// Every dependency was resolved.
    Resolved(ResolvedSet),
    /// The document of this package is needed before the walk can go on.
    Missing(String),
    /// The resolution failed; nothing was resolved.
    Failed(ResolveError),
}

impl View for Resolution {
    type V = OutcomeView;

    open spec fn view(&self) -> OutcomeView {
        match self {
            Resolution::Resolved(set) => OutcomeView::Resolved(set.chosen()),
            Resolution::Missing(name) => OutcomeView::Missing(name@),
            Resolution::Failed(error) => OutcomeView::Failed(error@),
        }
    }
}

/// The names that a list of strings holds.
pub open spec fn name_set(names: Seq<String>) -> Set<Seq<char>> {
    Set::new(|name: Seq<char>| exists|i: int| 0 <= i < names.len() && names[i]@ == name)
}

enum Stop {
    Missing(String),
    Failed(ResolveError),
}

impl Stop {
    spec fn view(&self) -> Halt {
        match self {
            Stop::Missing(name) => Halt::Missing(name@),
            Stop::Failed(error) => Halt::Failed(error@),
        }
    }
}

struct Walker {
    visited: Vec<String>,
    resolved: ResolvedSet,
}

impl Walker {
    spec fn view(&self) -> Walk {
        Walk { visited: name_set(self.visited@), resolved: self.resolved.chosen() }
    }
}

fn was_visited(visited: &Vec<String>, name: &str) -> (r: bool)
    ensures
        r == name_set(visited@).contains(name@),
{
    let mut i: usize = 0;
    while i < visited.len()
        invariant
            i <= visited.len(),
            forall|j: int| 0 <= j < i ==> visited@[j]@ != name@,
        decreases visited.len() - i,
    {
        if visited[i].as_str().eq(name) {
            return true;
        }
        i += 1;
    }
    false
}

fn unvisited_of(deps: &Vec<(String, String)>, visited: &Vec<String>) -> (r: Vec<(String, String)>)
    ensures
        pairs_view(r@) == unvisited(pairs_view(deps@), name_set(visited@)),
{
    let mut r: Vec<(String, String)> = Vec::new();
    let mut k: usize = 0;
    let ghost all = pairs_view(deps@);
    let ghost seen = name_set(visited@);
    assert(pairs_view(r@) =~= unvisited(all.take(0), seen));
    while k < deps.len()
        invariant
            k <= deps.len(),
            all == pairs_view(deps@),
            seen == name_set(visited@),
            pairs_view(r@) == unvisited(all.take(k as int), seen),
        decreases deps.len() - k,
    {
        proof {
            assert(all.take(k + 1).drop_last() =~= all.take(k as int));
            assert(all.take(k + 1).last() == all[k as int]);
        }
        if !was_visited(visited, deps[k].0.as_str()) {
            let ghost before = pairs_view(r@);
            r.push((deps[k].0.clone(), deps[k].1.clone()));
            assert(pairs_view(r@) =~= before.push(all[k as int]));
        }
        k += 1;
    }
    assert(all.take(k as int) =~= all);
    r
}

/// The registry documents fetched so far, and the resolution over them.
#[derive(Debug)]
pub struct Resolver {
    package_docs: Dict<RegistryDoc>,
}

impl View for Resolver {
    type V = Map<Seq<char>, DocView>;

    closed spec fn view(&self) -> Map<Seq<char>, DocView> {
        Map::new(
            |name: Seq<char>| self.package_docs.has(name),
            |name: Seq<char>| self.package_docs.value(name)@,
        )
    }
}

impl Default for Resolver {
    fn default() -> (r: Resolver)
        ensures
            r.wf(),
            r@ == Map::<Seq<char>, DocView>::empty(),
    {
        Resolver::new()
    }
}

impl Resolver {
    /// Every package has one document.
    pub closed spec fn wf(&self) -> bool {
        self.package_docs.wf()
    }

    /// A resolver that holds no document.
    pub fn new() -> (r: Resolver)
        ensures
            r.wf(),
            r@ == Map::<Seq<char>, DocView>::empty(),
    {
        let r = Resolver { package_docs: Dict::new() };
        assert(r@ =~= Map::<Seq<char>, DocView>::empty());
        r
    }

    /// The document held for `package`, if it has been handed over.
    pub fn query_package(&self, package: &str) -> (r: Option<&RegistryDoc>)
        requires
            self.wf(),
        ensures
            match r {
                Some(doc) => self@.dom().contains(package@) && doc@ == self@[package@],
                None => !self@.dom().contains(package@),
            },
    {
        self.package_docs.get(package)
    }

    /// Hands over the document fetched for `package`. A document that is
    /// already held stays as it is; the result says whether `doc` was taken.
    pub fn insert_document(&mut self, package: String, doc: RegistryDoc) -> (taken: bool)
        requires
            old(self).wf(),
        ensures
            final(self).wf(),
            taken == !old(self)@.dom().contains(package@),
            final(self)@ == if taken {
                old(self)@.insert(package@, doc@)
            } else {
                old(self)@
            },
    {
        if self.package_docs.position(package.as_str()).is_some() {
            return false;
        }
        let ghost before = self.package_docs;
        self.package_docs.insert(package, doc);
        proof {
            assert forall|other: Seq<char>| self.package_docs.has(other) == (other == package@
                || before.has(other)) by {
                assert(self.package_docs.map().dom().contains(other) == self.package_docs.has(
                    other,
                ));
                assert(before.map().dom().contains(other) == before.has(other));
            }
            assert forall|other: Seq<char>| self.package_docs.has(other) implies self.package_docs.value(
                other,
            ) == if other == package@ {
                doc
            } else {
                before.value(other)
            } by {
                assert(self.package_docs.map()[other] == self.package_docs.value(other));
                if other != package@ {
                    assert(before.map()[other] == before.value(other));
                }
            }
            assert(self@ =~= old(self)@.insert(package@, doc@));
        }
        true
    }

    /// Resolves `dependencies`, a list of package names with the range each
    /// is required in, over the documents held, counting `layer` as the depth
    /// of the list itself.
    pub fn resolve_dependencies(&self, dependencies: &Vec<(String, String)>, layer: usize) -> (r:
        Resolution)
        requires
            self.wf(),
        ensures
            r@ == resolve(self@, pairs_view(dependencies@), layer as nat),
            r matches Resolution::Resolved(set) ==> set.wf(),
    {
        let mut walker = Walker { visited: Vec::new(), resolved: ResolvedSet::new() };
        assert(walker@.visited =~= Set::<Seq<char>>::empty());
        match self.walk_all(dependencies, layer, &mut walker) {
            Ok(()) => Resolution::Resolved(walker.resolved),
            Err(Stop::Missing(name)) => Resolution::Missing(name),
            Err(Stop::Failed(error)) => Resolution::Failed(error),
        }
    }

    fn walk_all(&self, deps: &Vec<(String, String)>, depth: usize, walker: &mut Walker) -> (r:
        Result<(), Stop>)
        requires
            self.wf(),
            old(walker).resolved.wf(),
        ensures
            final(walker).resolved.wf(),
            match resolve_all(self@, pairs_view(deps@), depth as nat, old(walker)@) {
                Ok(walk) => r is Ok && final(walker)@ == walk,
                Err(halt) => r is Err && r->Err_0@ == halt,
            },
        decreases DEPTH_LIMIT + 1 - depth, 1nat,
    {
        let ghost all = pairs_view(deps@);
        let mut k: usize = 0;
        assert(all.skip(0) =~= all);
        while k < deps.len()
            invariant
                k <= deps.len(),
                self.wf(),
                walker.resolved.wf(),
                all == pairs_view(deps@),
                resolve_all(self@, all, depth as nat, old(walker)@) == resolve_all(
                    self@,
                    all.skip(k as int),
                    depth as nat,
                    walker@,
                ),
            decreases deps.len() - k,
        {
            let ghost rest = all.skip(k as int);
            proof {
                assert(rest[0] == (deps@[k as int].0@, deps@[k as int].1@));
                assert(rest.drop_first() =~= all.skip(k + 1));
            }
            match self.walk_one(&deps[k].0, &deps[k].1, depth, walker) {
                Ok(()) => {},
                Err(stop) => {
                    return Err(stop);
                },
            }
            k += 1;
        }
        Ok(())
    }

    fn walk_one(&self, name: &String, range_text: &String, depth: usize, walker: &mut Walker) -> (r:
        Result<(), Stop>)
        requires
            self.wf(),
            old(walker).resolved.wf(),
        ensures
            final(walker).resolved.wf(),
            match resolve_one(self@, (name@, range_text@), depth as nat, old(walker)@) {
                Ok(walk) => r is Ok && final(walker)@ == walk,
                Err(halt) => r is Err && r->Err_0@ == halt,
            },
        decreases DEPTH_LIMIT + 1 - depth, 0nat,
    {
        if depth > DEPTH_LIMIT {
            return Err(Stop::Failed(ResolveError::RecursionDepthExceeded));
        }
        let doc = match self.query_package(name.as_str()) {
            Some(doc) => doc,
            None => {
                return Err(Stop::Missing(name.clone()));
            },
        };
        let range = match SemverRange::parse(range_text.as_str()) {
            Ok(range) => range,
            Err(_) => {
                return Err(
                    Stop::Failed(
                        ResolveError::InvalidRange { name: name.clone(), range: range_text.clone() },
                    ),
                );
            },
        };
        let i = match select_version(&doc.versions, &range) {
            Some(i) => i,
            None => {
                return Err(
                    Stop::Failed(
                        ResolveError::NoSatisfyingVersion {
                            name: name.clone(),
                            range: range_text.clone(),
                        },
                    ),
                );
            },
        };
        let entry = &doc.versions[i].1;
        let ghost before = walker@;
        walker.visited.push(name.clone());
        walker.resolved.insert(name.clone(), entry.clone());
        proof {
            assert(walker@.visited =~= before.visited.insert(name@)) by {
                assert forall|other: Seq<char>| walker@.visited.contains(other) == before.visited.insert(
                    name@,
                ).contains(other) by {
                    let old_names = old(walker).visited@;
                    let new_names = walker.visited@;
                    if before.visited.insert(name@).contains(other) {
                        if other == name@ {
                            assert(new_names[new_names.len() - 1]@ == other);
                        } else {
                            let j = choose|j: int| 0 <= j < old_names.len() && old_names[j]@ == other;
                            assert(new_names[j]@ == other);
                        }
                    }
                    if walker@.visited.contains(other) {
                        let j = choose|j: int| 0 <= j < new_names.len() && new_names[j]@ == other;
                        if j < old_names.len() {
                            assert(old_names[j]@ == other);
                        }
                    }
                }
            }
        }
        let children = unvisited_of(&entry.dependencies, &walker.visited);
        self.walk_all(&children, depth + 1, walker)
    }
}

} // verus!
