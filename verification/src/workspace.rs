//! The search for the root of a workspace: the outermost directory, from a
//! starting directory upwards, that holds a manifest.

use vstd::prelude::*;
use crate::package_json::{Package, PackageJsonError};

verus! {

/// Why no workspace was found.
#[derive(Clone, Copy, Debug, PartialEq, Eq, Structural)]
pub enum WorkspaceError {
    /// No directory on the way up holds a manifest that could be taken in.
    NoManifestFound,
}

/// What was found in one directory on the way up: its manifest, or why
/// there is none to go by.
#[derive(Debug)]
pub struct Probe {
    pub directory: String,
    pub manifest: Result<Package, PackageJsonError>,
}

/// The root of a workspace and the manifest that lies there.
#[derive(Debug)]
pub struct Workspace {
    root: String,
    manifest: Package,
}

/// The probe at `i` holds a manifest and none further out does.
pub open spec fn is_outermost(probes: Seq<Probe>, i: int) -> bool {
    &&& 0 <= i < probes.len()
    &&& probes[i].manifest is Ok
    &&& forall|j: int| i < j < probes.len() ==> probes[j].manifest is Err
}

impl Workspace {
    /// The directory of the root.
    pub closed spec fn root_view(&self) -> Seq<char> {
        self.root@
    }

    /// The manifest at the root.
    pub closed spec fn manifest_view(&self) -> Package {
        self.manifest
    }

    /// Chooses the root among the directories probed on the way up, given
    /// from the starting directory outwards. A directory without a manifest,
    /// or with one that cannot be read or taken in, is passed over; of those
    /// that hold a manifest the outermost is the root.
    pub fn locate(probes: Vec<Probe>) -> (r: Result<Workspace, WorkspaceError>)
        ensures
            match r {
                Ok(workspace) => exists|i: int|
                    {
                        &&& #[trigger] is_outermost(probes@, i)
                        &&& workspace.root_view() == probes@[i].directory@
                        &&& Ok::<Package, PackageJsonError>(workspace.manifest_view())
                            == probes@[i].manifest
                    },
                Err(error) => error == WorkspaceError::NoManifestFound && forall|i: int|
                    0 <= i < probes.len() ==> probes@[i].manifest is Err,
            },
    {
        let ghost all = probes@;
        let mut left = probes;
        while left.len() > 0
            invariant
                all == probes@,
                left@.len() <= all.len(),
                left@ == all.take(left@.len() as int),
                forall|j: int| left@.len() <= j < all.len() ==> all[j].manifest is Err,
            decreases left.len(),
        {
            let ghost i = left@.len() - 1;
            let probe = left.pop().unwrap();
            assert(probe == all[i]);
            let Probe { directory, manifest } = probe;
            match manifest {
                Ok(manifest) => {
                    let workspace = Workspace { root: directory, manifest };
                    assert(is_outermost(all, i));
                    assert(workspace.root_view() == all[i].directory@);
                    assert(Ok::<Package, PackageJsonError>(workspace.manifest_view())
                        == all[i].manifest);
                    return Ok(workspace);
                },
                Err(_) => {},
            }
            assert(left@ =~= all.take(left@.len() as int));
        }
        Err(WorkspaceError::NoManifestFound)
    }

    /// The directory of the root.
    pub fn root(&self) -> (root: &String)
        ensures
            root@ == self.root_view(),
    {
        &self.root
    }

    /// The manifest at the root.
    pub fn manifest(&self) -> (manifest: &Package)
        ensures
            *manifest == self.manifest_view(),
    {
        &self.manifest
    }
}

} // verus!
