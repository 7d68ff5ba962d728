//! What holds of every resolution.

use vstd::prelude::*;
use crate::npm::DocView;
use crate::resolver::{
    candidate, fresh_walk, is_selected, resolve, resolve_all, resolve_one, selection, unvisited,
    FailureView, Halt, OutcomeView, Walk, DEPTH_LIMIT,
};
use crate::semver::range::parse_range;

verus! {

/// `more` holds every document of `docs`, unchanged.
pub open spec fn holds_all_of(more: Map<Seq<char>, DocView>, docs: Map<Seq<char>, DocView>) -> bool {
    forall|name: Seq<char>| #[trigger]
        docs.dom().contains(name) ==> more.dom().contains(name) && more[name] == docs[name]
}

/// `entry` is a published version of `name`, under a key that reads as a
/// version.
pub open spec fn published(docs: Map<Seq<char>, DocView>, name: Seq<char>, entry: crate::npm::EntryView) -> bool {
    &&& docs.dom().contains(name)
    &&& exists|i: int|
        0 <= i < docs[name].versions.len() && crate::semver::parse_version(
            #[trigger] docs[name].versions[i].0,
        ) is Some && docs[name].versions[i].1 == entry
}

/// Every name that the walk has resolved has been visited, and the version
/// chosen for it is one that the registry publishes for it.
pub open spec fn grounded(docs: Map<Seq<char>, DocView>, walk: Walk) -> bool {
    forall|name: Seq<char>| #[trigger]
        walk.resolved.dom().contains(name) ==> walk.visited.contains(name) && published(
            docs,
            name,
            walk.resolved[name],
        )
}

proof fn lemma_selection(versions: Seq<(Seq<char>, crate::npm::EntryView)>, range: crate::semver::range::RangeView)
    ensures
        match selection(versions, range) {
            Some(i) => is_selected(versions, range, i),
            None => forall|j: int| !is_selected(versions, range, j),
        },
{
}

proof fn lemma_one(docs: Map<Seq<char>, DocView>, dep: (Seq<char>, Seq<char>), depth: nat, walk: Walk)
    ensures
        match resolve_one(docs, dep, depth, walk) {
            Ok(end) => {
                &&& depth <= DEPTH_LIMIT
                &&& walk.visited.subset_of(end.visited)
                &&& walk.resolved.dom().subset_of(end.resolved.dom())
                &&& end.resolved.dom().contains(dep.0)
                &&& grounded(docs, walk) ==> grounded(docs, end)
            },
            Err(Halt::Missing(name)) => !docs.dom().contains(name),
            Err(Halt::Failed(_)) => true,
        },
    decreases DEPTH_LIMIT + 1 - depth, 0nat,
{
    if depth <= DEPTH_LIMIT && docs.dom().contains(dep.0) {
        if let Ok(range) = parse_range(dep.1) {
            lemma_selection(docs[dep.0].versions, range);
            if let Some(i) = selection(docs[dep.0].versions, range) {
                let entry = docs[dep.0].versions[i].1;
                let next = Walk {
                    visited: walk.visited.insert(dep.0),
                    resolved: walk.resolved.insert(dep.0, entry),
                };
                lemma_all(docs, unvisited(entry.dependencies, next.visited), depth + 1, next);
                if grounded(docs, walk) {
                    assert(grounded(docs, next)) by {
                        assert forall|name: Seq<char>| #[trigger]
                            next.resolved.dom().contains(name) implies next.visited.contains(name)
                            && published(docs, name, next.resolved[name]) by {
                            if name != dep.0 {
                                assert(walk.resolved.dom().contains(name));
                            }
                        }
                    }
                }
            }
        }
    }
}

proof fn lemma_all(
    docs: Map<Seq<char>, DocView>,
    deps: Seq<(Seq<char>, Seq<char>)>,
    depth: nat,
    walk: Walk,
)
    ensures
        match resolve_all(docs, deps, depth, walk) {
            Ok(end) => {
                &&& walk.visited.subset_of(end.visited)
                &&& walk.resolved.dom().subset_of(end.resolved.dom())
                &&& forall|i: int| 0 <= i < deps.len() ==> end.resolved.dom().contains(#[trigger] deps[i].0)
                &&& deps.len() > 0 ==> depth <= DEPTH_LIMIT
                &&& grounded(docs, walk) ==> grounded(docs, end)
            },
            Err(Halt::Missing(name)) => !docs.dom().contains(name),
            Err(Halt::Failed(_)) => true,
        },
    decreases DEPTH_LIMIT + 1 - depth, deps.len() + 1,
{
    if deps.len() > 0 {
        lemma_one(docs, deps[0], depth, walk);
        if let Ok(next) = resolve_one(docs, deps[0], depth, walk) {
            lemma_all(docs, deps.drop_first(), depth, next);
            if let Ok(end) = resolve_all(docs, deps.drop_first(), depth, next) {
                assert forall|i: int| 0 <= i < deps.len() implies end.resolved.dom().contains(
                    #[trigger] deps[i].0,
                ) by {
                    if i > 0 {
                        assert(deps[i] == deps.drop_first()[i - 1]);
                    }
                }
            }
        }
    }
}

/// A resolution asks only for a document that is not at hand. So, where the
/// caller hands over each document that it is asked for, no package is
/// fetched twice.
pub proof fn law_asks_for_what_is_missing(
    docs: Map<Seq<char>, DocView>,
    deps: Seq<(Seq<char>, Seq<char>)>,
    depth: nat,
)
    ensures
        resolve(docs, deps, depth) matches OutcomeView::Missing(name) ==> !docs.dom().contains(name),
{
    lemma_all(docs, deps, depth, fresh_walk());
}

/// The documents at hand after the first `k` of `fetched` were handed over
/// to a resolver that held `start`. A document for a name that is already
/// held changes nothing.
pub open spec fn held_after(
    start: Map<Seq<char>, DocView>,
    fetched: Seq<(Seq<char>, DocView)>,
    k: int,
) -> Map<Seq<char>, DocView>
    decreases k,
{
    if k <= 0 {
        start
    } else {
        let before = held_after(start, fetched, k - 1);
        if before.dom().contains(fetched[k - 1].0) {
            before
        } else {
            before.insert(fetched[k - 1].0, fetched[k - 1].1)
        }
    }
}

/// `fetched` is what a caller fetches, in order, who resolves `deps` again
/// and again and each time fetches the document that the resolution asks for.
pub open spec fn is_run(
    start: Map<Seq<char>, DocView>,
    fetched: Seq<(Seq<char>, DocView)>,
    deps: Seq<(Seq<char>, Seq<char>)>,
    depth: nat,
) -> bool {
    forall|k: int|
        0 <= k < fetched.len() ==> resolve(#[trigger] held_after(start, fetched, k), deps, depth)
            == OutcomeView::Missing(fetched[k].0)
}

proof fn lemma_held_grows(
    start: Map<Seq<char>, DocView>,
    fetched: Seq<(Seq<char>, DocView)>,
    i: int,
    k: int,
)
    requires
        0 <= i < k <= fetched.len(),
    ensures
        held_after(start, fetched, k).dom().contains(fetched[i].0),
    decreases k,
{
    if i < k - 1 {
        lemma_held_grows(start, fetched, i, k - 1);
    }
}

/// In a run no package is fetched twice, and none that the resolver held
/// from the start: however often several dependencies lead to the same
/// package, its document is asked for once.
pub proof fn law_no_package_is_fetched_twice(
    start: Map<Seq<char>, DocView>,
    fetched: Seq<(Seq<char>, DocView)>,
    deps: Seq<(Seq<char>, Seq<char>)>,
    depth: nat,
)
    requires
        is_run(start, fetched, deps, depth),
    ensures
        forall|i: int, j: int| 0 <= i < j < fetched.len() ==> fetched[i].0 != fetched[j].0,
        forall|i: int| 0 <= i < fetched.len() ==> !start.dom().contains(#[trigger] fetched[i].0),
{
    assert forall|i: int, j: int| 0 <= i < j < fetched.len() implies fetched[i].0
        != fetched[j].0 by {
        lemma_held_grows(start, fetched, i, j);
        law_asks_for_what_is_missing(held_after(start, fetched, j), deps, depth);
    }
    assert forall|i: int| 0 <= i < fetched.len() implies !start.dom().contains(
        #[trigger] fetched[i].0,
    ) by {
        lemma_start_is_held(start, fetched, i);
        law_asks_for_what_is_missing(held_after(start, fetched, i), deps, depth);
    }
}

proof fn lemma_start_is_held(
    start: Map<Seq<char>, DocView>,
    fetched: Seq<(Seq<char>, DocView)>,
    k: int,
)
    requires
        0 <= k <= fetched.len(),
    ensures
        forall|name: Seq<char>| #[trigger]
            start.dom().contains(name) ==> held_after(start, fetched, k).dom().contains(name),
    decreases k,
{
    if k > 0 {
        lemma_start_is_held(start, fetched, k - 1);
    }
}

/// Where a resolution succeeds, every dependency it was given has a chosen
/// version, and every chosen version is one that the registry publishes for
/// that package, whose document is at hand.
pub proof fn law_resolved_is_published(
    docs: Map<Seq<char>, DocView>,
    deps: Seq<(Seq<char>, Seq<char>)>,
    depth: nat,
)
    ensures
        resolve(docs, deps, depth) matches OutcomeView::Resolved(set) ==> {
            &&& forall|i: int| 0 <= i < deps.len() ==> set.dom().contains(#[trigger] deps[i].0)
            &&& forall|name: Seq<char>| #[trigger]
                set.dom().contains(name) ==> published(docs, name, set[name])
        },
{
    lemma_all(docs, deps, depth, fresh_walk());
}

/// A resolution that starts deeper than the limit with anything to resolve
/// fails, and none succeeds there: the walk never goes below the limit.
pub proof fn law_depth_is_bounded(
    docs: Map<Seq<char>, DocView>,
    deps: Seq<(Seq<char>, Seq<char>)>,
    depth: nat,
)
    requires
        depth > DEPTH_LIMIT,
        deps.len() > 0,
    ensures
        resolve(docs, deps, depth) == OutcomeView::Failed(FailureView::RecursionDepthExceeded),
{
    assert(resolve_one(docs, deps[0], depth, fresh_walk()) == Err::<Walk, Halt>(
        Halt::Failed(FailureView::RecursionDepthExceeded),
    ));
}

proof fn lemma_one_stable(
    docs: Map<Seq<char>, DocView>,
    more: Map<Seq<char>, DocView>,
    dep: (Seq<char>, Seq<char>),
    depth: nat,
    walk: Walk,
)
    requires
        holds_all_of(more, docs),
    ensures
        !(resolve_one(docs, dep, depth, walk) matches Err(Halt::Missing(_))) ==> resolve_one(
            more,
            dep,
            depth,
            walk,
        ) == resolve_one(docs, dep, depth, walk),
    decreases DEPTH_LIMIT + 1 - depth, 0nat,
{
    if depth <= DEPTH_LIMIT && docs.dom().contains(dep.0) {
        if let Ok(range) = parse_range(dep.1) {
            if let Some(i) = selection(docs[dep.0].versions, range) {
                let entry = docs[dep.0].versions[i].1;
                let next = Walk {
                    visited: walk.visited.insert(dep.0),
                    resolved: walk.resolved.insert(dep.0, entry),
                };
                lemma_all_stable(
                    docs,
                    more,
                    unvisited(entry.dependencies, next.visited),
                    depth + 1,
                    next,
                );
            }
        }
    }
}

proof fn lemma_all_stable(
    docs: Map<Seq<char>, DocView>,
    more: Map<Seq<char>, DocView>,
    deps: Seq<(Seq<char>, Seq<char>)>,
    depth: nat,
    walk: Walk,
)
    requires
        holds_all_of(more, docs),
    ensures
        !(resolve_all(docs, deps, depth, walk) matches Err(Halt::Missing(_))) ==> resolve_all(
            more,
            deps,
            depth,
            walk,
        ) == resolve_all(docs, deps, depth, walk),
    decreases DEPTH_LIMIT + 1 - depth, deps.len() + 1,
{
    if deps.len() > 0 {
        lemma_one_stable(docs, more, deps[0], depth, walk);
        if let Ok(next) = resolve_one(docs, deps[0], depth, walk) {
            lemma_all_stable(docs, more, deps.drop_first(), depth, next);
        }
    }
}

/// A resolution that ends without asking for a document ends the same way
/// over any larger set of documents: what it did not ask for plays no part.
pub proof fn law_outcome_is_final(
    docs: Map<Seq<char>, DocView>,
    more: Map<Seq<char>, DocView>,
    deps: Seq<(Seq<char>, Seq<char>)>,
    depth: nat,
)
    requires
        holds_all_of(more, docs),
        !(resolve(docs, deps, depth) is Missing),
    ensures
        resolve(more, deps, depth) == resolve(docs, deps, depth),
{
    lemma_all_stable(docs, more, deps, depth, fresh_walk());
}

/// The version chosen for a range lies in the range, and no published
/// version that lies in the range is higher. Where none is chosen, no
/// published version lies in the range.
pub proof fn law_selection_is_highest(
    versions: Seq<(Seq<char>, crate::npm::EntryView)>,
    range: crate::semver::range::RangeView,
)
    ensures
        match selection(versions, range) {
            Some(i) => {
                &&& candidate(versions, range, i)
                &&& forall|j: int| #[trigger]
                    candidate(versions, range, j) ==> !crate::semver::compare::precedes(
                        crate::resolver::version_at(versions, i),
                        crate::resolver::version_at(versions, j),
                    )
            },
            None => forall|j: int| !candidate(versions, range, j),
        },
{
    lemma_selection(versions, range);
    if selection(versions, range) is None {
        assert forall|j: int| !candidate(versions, range, j) by {
            if candidate(versions, range, j) {
                lemma_some_candidate_is_selected(versions, range, versions.len() as int);
            }
        }
    }
}

/// Among the first `n` entries, where one is a candidate, one of them is the
/// first highest candidate.
proof fn lemma_first_highest(
    versions: Seq<(Seq<char>, crate::npm::EntryView)>,
    range: crate::semver::range::RangeView,
    n: int,
) -> (best: int)
    requires
        0 <= n <= versions.len(),
        exists|j: int| 0 <= j < n && candidate(versions, range, j),
    ensures
        0 <= best < n,
        candidate(versions, range, best),
        forall|j: int|
            0 <= j < n && #[trigger] candidate(versions, range, j) ==> !crate::semver::compare::precedes(
                crate::resolver::version_at(versions, best),
                crate::resolver::version_at(versions, j),
            ),
        forall|j: int|
            0 <= j < best && #[trigger] candidate(versions, range, j) ==> crate::semver::compare::precedes(
                crate::resolver::version_at(versions, j),
                crate::resolver::version_at(versions, best),
            ),
    decreases n,
{
    let last = n - 1;
    if exists|j: int| 0 <= j < last && candidate(versions, range, j) {
        let prev = lemma_first_highest(versions, range, last);
        if candidate(versions, range, last) && crate::semver::compare::precedes(
            crate::resolver::version_at(versions, prev),
            crate::resolver::version_at(versions, last),
        ) {
            last
        } else {
            prev
        }
    } else {
        last
    }
}

proof fn lemma_some_candidate_is_selected(
    versions: Seq<(Seq<char>, crate::npm::EntryView)>,
    range: crate::semver::range::RangeView,
    n: int,
)
    requires
        n == versions.len(),
        exists|j: int| candidate(versions, range, j),
    ensures
        exists|i: int| is_selected(versions, range, i),
{
    let j = choose|j: int| candidate(versions, range, j);
    assert(0 <= j < n && candidate(versions, range, j));
    let best = lemma_first_highest(versions, range, n);
    assert(is_selected(versions, range, best));
}

} // verus!
