//! What the package registry publishes about a package.

use vstd::prelude::*;

verus! {

/// Where the archive of one published version lies, and its checksum.
#[derive(Debug)]
pub struct PackageDist {
    pub integrity: Option<String>,
    pub tarball: String,
}

/// One published version of a package.
#[derive(Debug)]
pub struct RegistryDocVersion {
    pub version: String,
    /// The packages this version needs, each with the range it accepts.
    pub dependencies: Vec<(String, String)>,
    pub dist: PackageDist,
}

/// The registry's document for one package: every published version under
/// its version text, and the tags that name some of them.
#[derive(Debug)]
pub struct RegistryDoc {
    pub dist_tags: Vec<(String, String)>,
    pub versions: Vec<(String, RegistryDocVersion)>,
}

/// The mathematical value of a [`PackageDist`].
pub ghost struct DistView {
    pub integrity: Option<Seq<char>>,
    pub tarball: Seq<char>,
}

/// The mathematical value of a [`RegistryDocVersion`].
pub ghost struct EntryView {
    pub version: Seq<char>,
    pub dependencies: Seq<(Seq<char>, Seq<char>)>,
    pub dist: DistView,
}

/// The mathematical value of a [`RegistryDoc`].
pub ghost struct DocView {
    pub dist_tags: Seq<(Seq<char>, Seq<char>)>,
    pub versions: Seq<(Seq<char>, EntryView)>,
}

/// The characters of each pair of strings.
pub open spec fn pairs_view(pairs: Seq<(String, String)>) -> Seq<(Seq<char>, Seq<char>)> {
    Seq::new(pairs.len(), |i: int| (pairs[i].0@, pairs[i].1@))
}

/// The value of each published version, under the characters of its key.
pub open spec fn versions_view(versions: Seq<(String, RegistryDocVersion)>) -> Seq<
    (Seq<char>, EntryView),
> {
    Seq::new(versions.len(), |i: int| (versions[i].0@, versions[i].1@))
}

/// A copy of a list of pairs of strings.
pub fn copy_pairs(pairs: &Vec<(String, String)>) -> (r: Vec<(String, String)>)
    ensures
        pairs_view(r@) == pairs_view(pairs@),
{
    let mut r: Vec<(String, String)> = Vec::new();
    let mut k: usize = 0;
    while k < pairs.len()
        invariant
            k <= pairs.len(),
            r.len() == k,
            forall|j: int| 0 <= j < k ==> r@[j].0@ == pairs@[j].0@ && r@[j].1@ == pairs@[j].1@,
        decreases pairs.len() - k,
    {
        r.push((pairs[k].0.clone(), pairs[k].1.clone()));
        k += 1;
    }
    assert(pairs_view(r@) =~= pairs_view(pairs@));
    r
}

impl Clone for PackageDist {
    fn clone(&self) -> (r: PackageDist)
        ensures
            r@ == self@,
    {
        PackageDist {
            integrity: match &self.integrity {
                Some(s) => Some(s.clone()),
                None => None,
            },
            tarball: self.tarball.clone(),
        }
    }
}

impl Clone for RegistryDocVersion {
    fn clone(&self) -> (r: RegistryDocVersion)
        ensures
            r@ == self@,
    {
        RegistryDocVersion {
            version: self.version.clone(),
            dependencies: copy_pairs(&self.dependencies),
            dist: self.dist.clone(),
        }
    }
}

impl Clone for RegistryDoc {
    fn clone(&self) -> (r: RegistryDoc)
        ensures
            r@ == self@,
    {
        let mut versions: Vec<(String, RegistryDocVersion)> = Vec::new();
        let mut k: usize = 0;
        while k < self.versions.len()
            invariant
                k <= self.versions.len(),
                versions.len() == k,
                forall|j: int|
                    0 <= j < k ==> versions@[j].0@ == self.versions@[j].0@ && versions@[j].1@
                        == self.versions@[j].1@,
            decreases self.versions.len() - k,
        {
            versions.push((self.versions[k].0.clone(), self.versions[k].1.clone()));
            k += 1;
        }
        assert(versions_view(versions@) =~= versions_view(self.versions@));
        RegistryDoc { dist_tags: copy_pairs(&self.dist_tags), versions }
    }
}

impl View for PackageDist {
    type V = DistView;

    open spec fn view(&self) -> DistView {
        DistView {
            integrity: match self.integrity {
                Some(s) => Some(s@),
                None => None,
            },
            tarball: self.tarball@,
        }
    }
}

impl View for RegistryDocVersion {
    type V = EntryView;

    open spec fn view(&self) -> EntryView {
        EntryView {
            version: self.version@,
            dependencies: pairs_view(self.dependencies@),
            dist: self.dist@,
        }
    }
}

impl View for RegistryDoc {
    type V = DocView;

    open spec fn view(&self) -> DocView {
        DocView {
            dist_tags: pairs_view(self.dist_tags@),
            versions: versions_view(self.versions@),
        }
    }
}

} // verus!
