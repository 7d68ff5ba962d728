//! The manifest of a package: what it is called, what it needs and what it
//! can run.

use vstd::prelude::*;
use crate::dict::Dict;
use crate::npm::pairs_view;

verus! {

/// Why the manifest file of a directory could not be taken in.
#[derive(Clone, Copy, Debug, PartialEq, Eq, Structural)]
pub enum PackageJsonError {
    /// The file could not be read.
    IoError(IoFailure),
    /// The file was read and does not hold a manifest.
    JsonError,
}

/// What went wrong when reading a file, as far as callers tell it apart.
#[derive(Clone, Copy, Debug, PartialEq, Eq, Structural)]
pub enum IoFailure {
    /// There is no such file.
    NotFound,
    /// Anything else.
    Other,
}

/// What a manifest declares. Each list pairs a name with a text: a
/// dependency with the range it is required in, a script with its command.
#[derive(Debug)]
pub struct Package {
    pub private: Option<bool>,
    pub name: Option<String>,
    pub version: Option<String>,
    pub license: Option<String>,
    pub dependencies: Vec<(String, String)>,
    pub peer_dependencies: Vec<(String, String)>,
    pub dev_dependencies: Vec<(String, String)>,
    pub scripts: Vec<(String, String)>,
}

/// A manifest together with the path of the file it was read from.
#[derive(Debug)]
pub struct PackageJson(pub String, pub Package);

/// The text that the last pair named `name` gives, if a pair has that name.
pub open spec fn last_given(pairs: Seq<(Seq<char>, Seq<char>)>, name: Seq<char>) -> Option<Seq<char>>
    decreases pairs.len(),
{
    if pairs.len() == 0 {
        None
    } else if pairs.last().0 == name {
        Some(pairs.last().1)
    } else {
        last_given(pairs.drop_last(), name)
    }
}

/// The range that `name` is required in where the development dependencies
/// override the dependencies.
pub open spec fn joined_range(
    dependencies: Seq<(Seq<char>, Seq<char>)>,
    dev_dependencies: Seq<(Seq<char>, Seq<char>)>,
    name: Seq<char>,
) -> Option<Seq<char>> {
    match last_given(dev_dependencies, name) {
        Some(range) => Some(range),
        None => last_given(dependencies, name),
    }
}

/// `dict` maps each name to the last text that `pairs` gives for it, and,
/// beyond those, to what `base` gives.
spec fn collects(dict: Dict<String>, pairs: Seq<(Seq<char>, Seq<char>)>, base: Seq<(Seq<char>, Seq<char>)>) -> bool {
    forall|name: Seq<char>|
        {
            let want = joined_range(base, pairs, name);
            &&& #[trigger] dict.has(name) <==> want is Some
            &&& dict.has(name) ==> dict.value(name)@ == want->0
        }
}

fn collect_into(dict: &mut Dict<String>, pairs: &Vec<(String, String)>, Ghost(base): Ghost<
    Seq<(Seq<char>, Seq<char>)>,
>)
    requires
        old(dict).wf(),
        collects(*old(dict), Seq::empty(), base),
    ensures
        final(dict).wf(),
        collects(*final(dict), pairs_view(pairs@), base),
{
    let ghost all = pairs_view(pairs@);
    let mut k: usize = 0;
    assert(all.take(0) =~= Seq::<(Seq<char>, Seq<char>)>::empty());
    while k < pairs.len()
        invariant
            k <= pairs.len(),
            all == pairs_view(pairs@),
            dict.wf(),
            collects(*dict, all.take(k as int), base),
        decreases pairs.len() - k,
    {
        let ghost before = *dict;
        let ghost done = all.take(k as int);
        let ghost next = all.take(k + 1);
        dict.insert(pairs[k].0.clone(), pairs[k].1.clone());
        proof {
            assert(next.drop_last() =~= done);
            assert(next.last() == all[k as int]);
            assert forall|name: Seq<char>|
                {
                    let want = joined_range(base, next, name);
                    &&& #[trigger] dict.has(name) <==> want is Some
                    &&& dict.has(name) ==> dict.value(name)@ == want->0
                } by {
                assert(dict.map().dom().contains(name) == dict.has(name));
                assert(before.map().dom().contains(name) == before.has(name));
                assert(before.has(name) <==> joined_range(base, done, name) is Some);
                if dict.has(name) {
                    assert(dict.map()[name] == dict.value(name));
                }
                if before.has(name) {
                    assert(before.map()[name] == before.value(name));
                }
            }
        }
        k += 1;
    }
    assert(all.take(k as int) =~= all);
}

impl Package {
    /// The dependencies and the development dependencies as one map from
    /// each name to the range it is required in: for a name in both lists the
    /// development range, for a name given twice in a list the later range.
    pub fn joined_dependencies(&self) -> (joined: Dict<String>)
        ensures
            joined.wf(),
            forall|name: Seq<char>|
                {
                    let want = joined_range(
                        pairs_view(self.dependencies@),
                        pairs_view(self.dev_dependencies@),
                        name,
                    );
                    &&& #[trigger] joined.has(name) <==> want is Some
                    &&& joined.has(name) ==> joined.value(name)@ == want->0
                },
    {
        let mut joined: Dict<String> = Dict::new();
        let ghost none = Seq::<(Seq<char>, Seq<char>)>::empty();
        let ghost deps = pairs_view(self.dependencies@);
        collect_into(&mut joined, &self.dependencies, Ghost(none));
        proof {
            assert forall|name: Seq<char>|
                {
                    let want = joined_range(deps, none, name);
                    &&& #[trigger] joined.has(name) <==> want is Some
                    &&& joined.has(name) ==> joined.value(name)@ == want->0
                } by {
                assert(joined_range(none, deps, name) == joined_range(deps, none, name));
            }
        }
        collect_into(&mut joined, &self.dev_dependencies, Ghost(deps));
        joined
    }
}

} // verus!
