//! Version ranges and the versions they admit.

use core::str::FromStr;
use vstd::prelude::*;
use crate::semver::compare::precedes;
use crate::semver::{parse_version, version_text, SemverError, Version, VersionView};
use crate::text::{chars_of, is_digit, is_digit_char, tail};

verus! {

/// A constraint on versions.
#[derive(Debug)]
pub enum SemverRange {
    /// `>x.y.z`
    GreaterThan(Version),
    /// `>=x.y.z`
    GreaterThanOrEqual(Version),
    /// `<x.y.z`
    LessThan(Version),
    /// `x.y.z`
    Exact(Version),
    /// `~x.y.z`
    Patched(Version),
    /// `^x.y.z`
    Compatible(Version),
    /// `*`
    Any,
}

/// The mathematical value of a [`SemverRange`].
pub ghost enum RangeView {
    GreaterThan(VersionView),
    GreaterThanOrEqual(VersionView),
    LessThan(VersionView),
    Exact(VersionView),
    Patched(VersionView),
    Compatible(VersionView),
    Any,
}

impl View for SemverRange {
    type V = RangeView;

    open spec fn view(&self) -> RangeView {
        match self {
            SemverRange::GreaterThan(b) => RangeView::GreaterThan(b@),
            SemverRange::GreaterThanOrEqual(b) => RangeView::GreaterThanOrEqual(b@),
            SemverRange::LessThan(b) => RangeView::LessThan(b@),
            SemverRange::Exact(b) => RangeView::Exact(b@),
            SemverRange::Patched(b) => RangeView::Patched(b@),
            SemverRange::Compatible(b) => RangeView::Compatible(b@),
            SemverRange::Any => RangeView::Any,
        }
    }
}

impl Clone for SemverRange {
    fn clone(&self) -> (r: SemverRange)
        ensures
            r@ == self@,
    {
        match self {
            SemverRange::GreaterThan(b) => SemverRange::GreaterThan(b.clone()),
            SemverRange::GreaterThanOrEqual(b) => SemverRange::GreaterThanOrEqual(b.clone()),
            SemverRange::LessThan(b) => SemverRange::LessThan(b.clone()),
            SemverRange::Exact(b) => SemverRange::Exact(b.clone()),
            SemverRange::Patched(b) => SemverRange::Patched(b.clone()),
            SemverRange::Compatible(b) => SemverRange::Compatible(b.clone()),
            SemverRange::Any => SemverRange::Any,
        }
    }
}

/// Same major and minor as `b`, and a patch that is not lower.
pub open spec fn patch_level(v: VersionView, b: VersionView) -> bool {
    v.major == b.major && v.minor == b.minor && v.patch >= b.patch
}

/// Whether `range` admits `v`.
pub open spec fn range_matches(range: RangeView, v: VersionView) -> bool {
    match range {
        RangeView::GreaterThan(b) => precedes(b, v),
        RangeView::GreaterThanOrEqual(b) => !precedes(v, b),
        RangeView::LessThan(b) => precedes(v, b),
        RangeView::Exact(b) => v == b,
        RangeView::Patched(b) => patch_level(v, b),
        RangeView::Compatible(b) => if b.major > 0 {
            v.major == b.major && !precedes(v, b)
        } else if b.minor > 0 {
            patch_level(v, b)
        } else {
            v == b
        },
        RangeView::Any => true,
    }
}

/// The range that `text` opens like, around the version `b` read from the rest.
pub open spec fn range_of_prefix(text: Seq<char>, b: VersionView) -> RangeView {
    if is_digit(text[0]) {
        RangeView::Exact(b)
    } else if text[0] == '^' {
        RangeView::Compatible(b)
    } else if text[0] == '~' {
        RangeView::Patched(b)
    } else if text[0] == '>' {
        if text.len() > 1 && text[1] == '=' {
            RangeView::GreaterThanOrEqual(b)
        } else {
            RangeView::GreaterThan(b)
        }
    } else {
        RangeView::LessThan(b)
    }
}

/// How many characters of `text` are the range's mark; 0 for a bare version.
/// `None` where `text` opens like no range.
pub open spec fn prefix_len(text: Seq<char>) -> Option<int> {
    if text.len() == 0 {
        None
    } else if is_digit(text[0]) {
        Some(0)
    } else if text[0] == '^' || text[0] == '~' || text[0] == '<' {
        Some(1)
    } else if text[0] == '>' {
        if text.len() > 1 && text[1] == '=' {
            Some(2)
        } else {
            Some(1)
        }
    } else {
        None
    }
}

/// The range that `text` denotes, or why it denotes none.
///
/// `*` is any version. A text that starts with a digit is an exact version.
/// `^`, `~`, `>=`, `>` and `<` each stand before a version. A text that opens
/// in another way is no range; one whose version cannot be read fails as
/// that version does.
pub open spec fn parse_range(text: Seq<char>) -> Result<RangeView, SemverError> {
    if text == seq!['*'] {
        Ok(RangeView::Any)
    } else {
        match prefix_len(text) {
            None => Err(SemverError::InvalidRangeSyntax),
            Some(k) => match parse_version(text.skip(k)) {
                None => Err(SemverError::InvalidVersionSyntax),
                Some(b) => Ok(range_of_prefix(text, b)),
            },
        }
    }
}

/// The mark that a range opens with; nothing for an exact version.
pub open spec fn range_mark(range: RangeView) -> Seq<char> {
    match range {
        RangeView::GreaterThan(_) => seq!['>'],
        RangeView::GreaterThanOrEqual(_) => seq!['>', '='],
        RangeView::LessThan(_) => seq!['<'],
        RangeView::Exact(_) => Seq::empty(),
        RangeView::Patched(_) => seq!['~'],
        RangeView::Compatible(_) => seq!['^'],
        RangeView::Any => seq!['*'],
    }
}

/// The version that a range is stated from, if it has one.
pub open spec fn range_bound(range: RangeView) -> Option<VersionView> {
    match range {
        RangeView::GreaterThan(b) => Some(b),
        RangeView::GreaterThanOrEqual(b) => Some(b),
        RangeView::LessThan(b) => Some(b),
        RangeView::Exact(b) => Some(b),
        RangeView::Patched(b) => Some(b),
        RangeView::Compatible(b) => Some(b),
        RangeView::Any => None,
    }
}

/// The text form of a range: its mark, then the full text of its version.
pub open spec fn range_text(range: RangeView) -> Seq<char> {
    match range_bound(range) {
        Some(bound) => range_mark(range) + version_text(bound),
        None => range_mark(range),
    }
}

impl SemverRange {
    /// The text form of this range.
    pub fn format(&self) -> (s: String)
        ensures
            s@ == range_text(self@),
    {
        let mut s = String::new();
        let bound = match self {
            SemverRange::GreaterThan(b) => {
                s.push('>');
                b
            },
            SemverRange::GreaterThanOrEqual(b) => {
                s.push('>');
                s.push('=');
                b
            },
            SemverRange::LessThan(b) => {
                s.push('<');
                b
            },
            SemverRange::Exact(b) => b,
            SemverRange::Patched(b) => {
                s.push('~');
                b
            },
            SemverRange::Compatible(b) => {
                s.push('^');
                b
            },
            SemverRange::Any => {
                s.push('*');
                assert(s@ =~= range_text(self@));
                return s;
            },
        };
        assert(s@ =~= range_mark(self@));
        let text = bound.format();
        s.append(text.as_str());
        s
    }

    /// Whether `version` lies in this range.
    pub fn matches(&self, version: &Version) -> (r: bool)
        ensures
            r == range_matches(self@, version@),
    {
        match self {
            SemverRange::GreaterThan(range) => version > range,
            SemverRange::GreaterThanOrEqual(range) => version >= range,
            SemverRange::LessThan(range) => version < range,
            SemverRange::Exact(range) => version == range,
            SemverRange::Patched(range) => {
                version.major == range.major && version.minor == range.minor && version.patch
                    >= range.patch
            },
            SemverRange::Compatible(range) => {
                if range.major < 1 {
                    if range.minor < 1 {
                        return version == range;
                    }
                    return version.major == range.major && version.minor == range.minor
                        && version.patch >= range.patch;
                }
                version.major == range.major && version >= range
            },
            SemverRange::Any => true,
        }
    }

    /// Reads a range from its text form.
    pub fn parse(s: &str) -> (r: Result<SemverRange, SemverError>)
        ensures
            match r {
                Ok(range) => parse_range(s@) == Ok::<RangeView, SemverError>(range@),
                Err(e) => parse_range(s@) == Err::<RangeView, SemverError>(e),
            },
    {
        let chars = chars_of(s);
        let n = chars.len();
        if n == 1 && chars[0] == '*' {
            assert(chars@ =~= seq!['*']);
            return Ok(SemverRange::Any);
        }
        if n == 0 {
            return Err(SemverError::InvalidRangeSyntax);
        }
        let first = chars[0];
        let skip: usize = if is_digit_char(first) {
            0
        } else if first == '^' || first == '~' || first == '<' {
            1
        } else if first == '>' {
            if n > 1 && chars[1] == '=' {
                2
            } else {
                1
            }
        } else {
            return Err(SemverError::InvalidRangeSyntax);
        };
        let rest = tail(&chars, skip);
        let bound = match Version::parse_chars(&rest) {
            Ok(v) => v,
            Err(e) => {
                return Err(e);
            },
        };
        Ok(
            if skip == 0 {
                SemverRange::Exact(bound)
            } else if first == '^' {
                SemverRange::Compatible(bound)
            } else if first == '~' {
                SemverRange::Patched(bound)
            } else if first == '<' {
                SemverRange::LessThan(bound)
            } else if skip == 2 {
                SemverRange::GreaterThanOrEqual(bound)
            } else {
                SemverRange::GreaterThan(bound)
            },
        )
    }
}

impl FromStr for SemverRange {
    type Err = SemverError;

    /// Reads a range from its text form, as `parse` does.
    fn from_str(s: &str) -> (r: Result<SemverRange, SemverError>)
        ensures
            match r {
                Ok(range) => parse_range(s@) == Ok::<RangeView, SemverError>(range@),
                Err(e) => parse_range(s@) == Err::<RangeView, SemverError>(e),
            },
    {
        SemverRange::parse(s)
    }
}

} // verus!
