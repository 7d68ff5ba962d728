//! Equality and ordering of versions.
//!
//! Two versions are equal when all five fields are equal. The ordering looks
//! at the three numbers only, so two versions that differ in a tag alone are
//! unequal and yet neither precedes the other.

use core::cmp::Ordering;
use vstd::prelude::*;
use vstd::std_specs::cmp::{PartialEqSpecImpl, PartialOrdSpecImpl};
use crate::semver::{Version, VersionView};

verus! {

/// `a` is strictly lower than `b`: by major, then minor, then patch.
pub open spec fn precedes(a: VersionView, b: VersionView) -> bool {
    a.major < b.major || (a.major == b.major && (a.minor < b.minor || (a.minor == b.minor
        && a.patch < b.patch)))
}

/// `a` and `b` have the same three numbers.
pub open spec fn same_triple(a: VersionView, b: VersionView) -> bool {
    a.major == b.major && a.minor == b.minor && a.patch == b.patch
}

/// Where `a` stands relative to `b` in the ordering of versions.
pub open spec fn version_order(a: VersionView, b: VersionView) -> Ordering {
    if precedes(a, b) {
        Ordering::Less
    } else if precedes(b, a) {
        Ordering::Greater
    } else {
        Ordering::Equal
    }
}

fn tags_equal(a: &Option<String>, b: &Option<String>) -> (r: bool)
    ensures
        r == (crate::semver::tag_view(*a) == crate::semver::tag_view(*b)),
{
    match (a, b) {
        (Some(x), Some(y)) => *x == *y,
        (None, None) => true,
        _ => false,
    }
}

impl PartialEq for Version {
    fn eq(&self, other: &Version) -> (r: bool) {
        self.major == other.major && self.minor == other.minor && self.patch == other.patch
            && tags_equal(&self.prerelease_info, &other.prerelease_info) && tags_equal(
            &self.build_info,
            &other.build_info,
        )
    }
}

impl PartialEqSpecImpl for Version {
    open spec fn obeys_eq_spec() -> bool {
        true
    }

    open spec fn eq_spec(&self, other: &Version) -> bool {
        self@ == other@
    }
}

impl Version {
    /// Compares by major, then minor, then patch; the tags are not looked at.
    pub fn cmp(&self, other: &Version) -> (o: Ordering)
        ensures
            o == version_order(self@, other@),
    {
        if self.major != other.major {
            if self.major < other.major {
                Ordering::Less
            } else {
                Ordering::Greater
            }
        } else if self.minor != other.minor {
            if self.minor < other.minor {
                Ordering::Less
            } else {
                Ordering::Greater
            }
        } else if self.patch != other.patch {
            if self.patch < other.patch {
                Ordering::Less
            } else {
                Ordering::Greater
            }
        } else {
            Ordering::Equal
        }
    }
}

impl PartialOrd for Version {
    fn partial_cmp(&self, other: &Version) -> (r: Option<Ordering>) {
        Some(self.cmp(other))
    }
}

impl PartialOrdSpecImpl for Version {
    open spec fn obeys_partial_cmp_spec() -> bool {
        true
    }

    open spec fn partial_cmp_spec(&self, other: &Version) -> Option<Ordering> {
        Some(version_order(self@, other@))
    }
}

} // verus!
