//! Semantic versions: the three-segment version with optional pre-release and
//! build tags, its text form, and the ranges that select versions.

use core::str::FromStr;
use vstd::prelude::*;
use vstd::std_specs::convert::FromSpecImpl;
pub use crate::semver::range::SemverRange;
use crate::text::{
    chars_of, decimal_value, find, free_of, index_of, is_numeral, numeral, parse_numeral,
    push_numeral, string_of_range,
};

pub mod compare;
pub mod laws;
pub mod range;

verus! {

/// Why a version or a range could not be read.
#[derive(Clone, Copy, Debug, PartialEq, Eq, Structural)]
pub enum SemverError {
    /// The text is not a version.
    InvalidVersionSyntax,
    /// The text does not start like any range.
    InvalidRangeSyntax,
}

/// A version `major.minor.patch` with optional pre-release and build tags.
#[derive(Debug)]
pub struct Version {
    pub major: u64,
    pub minor: u64,
    pub patch: u64,
    pub prerelease_info: Option<String>,
    pub build_info: Option<String>,
}

/// The mathematical value of a [`Version`].
pub ghost struct VersionView {
    pub major: nat,
    pub minor: nat,
    pub patch: nat,
    pub prerelease_info: Option<Seq<char>>,
    pub build_info: Option<Seq<char>>,
}

/// The characters of an optional tag.
pub open spec fn tag_view(tag: Option<String>) -> Option<Seq<char>> {
    match tag {
        Some(s) => Some(s@),
        None => None,
    }
}

impl View for Version {
    type V = VersionView;

    open spec fn view(&self) -> VersionView {
        VersionView {
            major: self.major as nat,
            minor: self.minor as nat,
            patch: self.patch as nat,
            prerelease_info: tag_view(self.prerelease_info),
            build_info: tag_view(self.build_info),
        }
    }
}

impl VersionView {
    /// The tags are such that the text form reads back as the same version:
    /// neither is empty, and the pre-release tag holds no `+`.
    pub open spec fn wf(self) -> bool {
        &&& self.major <= u64::MAX
        &&& self.minor <= u64::MAX
        &&& self.patch <= u64::MAX
        &&& tag_ok(self.prerelease_info)
        &&& tag_ok(self.build_info)
        &&& self.prerelease_info matches Some(p) ==> free_of(p, '+')
    }

    /// The version without its tags.
    pub open spec fn bare(self) -> VersionView {
        VersionView { prerelease_info: None, build_info: None, ..self }
    }
}

/// A tag, where present, has at least one character.
pub open spec fn tag_ok(tag: Option<Seq<char>>) -> bool {
    tag matches Some(t) ==> t.len() > 0
}

/// What stands before the first `+` of a version text.
pub open spec fn head_part(text: Seq<char>) -> Seq<char> {
    text.take(index_of(text, '+'))
}

/// The build tag: what follows the first `+`, if there is one.
pub open spec fn build_part(text: Seq<char>) -> Option<Seq<char>> {
    let plus = index_of(text, '+');
    if plus < text.len() {
        Some(text.skip(plus + 1))
    } else {
        None
    }
}

/// The pre-release tag: what stands between the first `-` and the build tag.
pub open spec fn prerelease_part(text: Seq<char>) -> Option<Seq<char>> {
    let head = head_part(text);
    let dash = index_of(head, '-');
    if dash < head.len() {
        Some(head.skip(dash + 1))
    } else {
        None
    }
}

/// The dotted numbers: what stands before both tags.
pub open spec fn core_part(text: Seq<char>) -> Seq<char> {
    let head = head_part(text);
    head.take(index_of(head, '-'))
}

/// The pieces of `s` between its dots.
pub open spec fn segments(s: Seq<char>) -> Seq<Seq<char>>
    decreases s.len(),
{
    let dot = index_of(s, '.');
    if 0 <= dot < s.len() {
        seq![s.take(dot)] + segments(s.skip(dot + 1))
    } else {
        seq![s]
    }
}

/// A segment is a canonical numeral that fits in 64 bits.
pub open spec fn segment_ok(seg: Seq<char>) -> bool {
    is_numeral(seg) && decimal_value(seg) <= u64::MAX
}

/// The number of the `k`-th segment, 0 where the text has fewer segments.
pub open spec fn segment_value(segs: Seq<Seq<char>>, k: int) -> nat {
    if k < segs.len() {
        decimal_value(segs[k])
    } else {
        0
    }
}

/// The version that `text` denotes, if it denotes one.
///
/// The text is one to three numerals joined by dots, each without a leading
/// zero and within 64 bits, then optionally `-` and a pre-release tag, then
/// optionally `+` and a build tag. A segment that is left out counts as 0, and
/// a tag that is there has at least one character.
pub open spec fn parse_version(text: Seq<char>) -> Option<VersionView> {
    let segs = segments(core_part(text));
    if segs.len() <= 3 && (forall|k: int| 0 <= k < segs.len() ==> segment_ok(#[trigger] segs[k]))
        && tag_ok(prerelease_part(text)) && tag_ok(build_part(text)) {
        Some(
            VersionView {
                major: segment_value(segs, 0),
                minor: segment_value(segs, 1),
                patch: segment_value(segs, 2),
                prerelease_info: prerelease_part(text),
                build_info: build_part(text),
            },
        )
    } else {
        None
    }
}

/// The three numbers joined by dots.
pub open spec fn triple_text(v: VersionView) -> Seq<char> {
    numeral(v.major) + seq!['.'] + numeral(v.minor) + seq!['.'] + numeral(v.patch)
}

/// `-` and the tag, or nothing.
pub open spec fn tag_text(mark: char, tag: Option<Seq<char>>) -> Seq<char> {
    match tag {
        Some(t) => seq![mark] + t,
        None => Seq::empty(),
    }
}

/// The full text form: the three numbers, then the tags that are present.
pub open spec fn version_text(v: VersionView) -> Seq<char> {
    triple_text(v) + tag_text('-', v.prerelease_info) + tag_text('+', v.build_info)
}

/// `segments` always yields at least one piece.
pub proof fn lemma_segments_nonempty(s: Seq<char>)
    ensures
        segments(s).len() >= 1,
    decreases s.len(),
{
    let dot = index_of(s, '.');
    if 0 <= dot < s.len() {
        lemma_segments_nonempty(s.skip(dot + 1));
    }
}

impl Clone for Version {
    fn clone(&self) -> (r: Version)
        ensures
            r@ == self@,
    {
        Version {
            major: self.major,
            minor: self.minor,
            patch: self.patch,
            prerelease_info: match &self.prerelease_info {
                Some(t) => Some(t.clone()),
                None => None,
            },
            build_info: match &self.build_info {
                Some(t) => Some(t.clone()),
                None => None,
            },
        }
    }
}

impl From<(u64, u64, u64)> for Version {
    fn from(version: (u64, u64, u64)) -> (r: Version) {
        Version {
            major: version.0,
            minor: version.1,
            patch: version.2,
            prerelease_info: None,
            build_info: None,
        }
    }
}

impl FromSpecImpl<(u64, u64, u64)> for Version {
    open spec fn obeys_from_spec() -> bool {
        true
    }

    open spec fn from_spec(version: (u64, u64, u64)) -> Version {
        Version {
            major: version.0,
            minor: version.1,
            patch: version.2,
            prerelease_info: None,
            build_info: None,
        }
    }
}

impl FromStr for Version {
    type Err = SemverError;

    /// Reads a version from its text form, as `parse` does.
    fn from_str(s: &str) -> (r: Result<Version, SemverError>)
        ensures
            match r {
                Ok(v) => parse_version(s@) == Some(v@),
                Err(e) => parse_version(s@) is None && e == SemverError::InvalidVersionSyntax,
            },
    {
        Version::parse(s)
    }
}

impl Version {
    /// Whether this version lies in `range`.
    pub fn satisfies(&self, range: &SemverRange) -> (r: bool)
        ensures
            r == crate::semver::range::range_matches(range@, self@),
    {
        range.matches(self)
    }

    /// The three numbers joined by dots, without the tags.
    pub fn to_string(&self) -> (s: String)
        ensures
            s@ == triple_text(self@),
    {
        let mut s = String::new();
        push_numeral(&mut s, self.major);
        s.push('.');
        push_numeral(&mut s, self.minor);
        s.push('.');
        push_numeral(&mut s, self.patch);
        proof {
            assert(s@ =~= triple_text(self@));
        }
        s
    }

    /// The full text form: the three numbers, then `-` and the pre-release
    /// tag, then `+` and the build tag, each tag only where present.
    pub fn format(&self) -> (s: String)
        ensures
            s@ == version_text(self@),
    {
        let mut s = self.to_string();
        match &self.prerelease_info {
            Some(tag) => {
                s.push('-');
                s.append(tag.as_str());
                proof {
                    assert(s@ =~= triple_text(self@) + tag_text('-', self@.prerelease_info));
                }
            },
            None => {
                proof {
                    assert(s@ =~= triple_text(self@) + tag_text('-', self@.prerelease_info));
                }
            },
        }
        match &self.build_info {
            Some(tag) => {
                s.push('+');
                s.append(tag.as_str());
                proof {
                    assert(s@ =~= version_text(self@));
                }
            },
            None => {
                proof {
                    assert(s@ =~= version_text(self@));
                }
            },
        }
        s
    }

    /// Reads a version from its text form.
    pub fn parse(s: &str) -> (r: Result<Version, SemverError>)
        ensures
            match r {
                Ok(v) => parse_version(s@) == Some(v@),
                Err(e) => parse_version(s@) is None && e == SemverError::InvalidVersionSyntax,
            },
    {
        let chars = chars_of(s);
        Version::parse_chars(&chars)
    }

    /// Reads a version from the characters of its text form.
    pub fn parse_chars(chars: &Vec<char>) -> (r: Result<Version, SemverError>)
        ensures
            match r {
                Ok(v) => parse_version(chars@) == Some(v@),
                Err(e) => parse_version(chars@) is None && e == SemverError::InvalidVersionSyntax,
            },
    {
        let n = chars.len();
        let plus = find(chars, 0, n, '+');
        let dash = find(chars, 0, plus, '-');
        let ghost text = chars@;
        let ghost head = head_part(text);
        let ghost core = core_part(text);
        proof {
            assert(text.subrange(0, n as int) =~= text);
            assert(text.subrange(0, plus as int) =~= head);
            assert(core =~= text.subrange(0, dash as int));
            assert(prerelease_part(text) == if dash < plus {
                Some(head.skip(dash + 1))
            } else {
                None
            });
        }
        let mut major: u64 = 0;
        let mut minor: u64 = 0;
        let mut patch: u64 = 0;
        let mut count: usize = 0;
        let mut pos: usize = 0;
        let ghost mut done: Seq<Seq<char>> = Seq::empty();
        proof {
            assert(core.skip(0) =~= core);
            assert(done + segments(core.skip(0)) =~= segments(core));
        }
        loop
            invariant_except_break
                count < 3,
                segments(core) == done + segments(core.skip(pos as int)),
            invariant
                pos <= dash <= plus <= n,
                n == chars.len(),
                core == chars@.subrange(0, dash as int),
                core == core_part(chars@),
                count <= 3,
                done.len() == count,
                forall|k: int| 0 <= k < done.len() ==> segment_ok(#[trigger] done[k]),
                major == segment_value(done, 0),
                minor == segment_value(done, 1),
                patch == segment_value(done, 2),
            ensures
                1 <= count <= 3,
                segments(core) == done,
            decreases dash - pos,
        {
            let dot = find(chars, pos, dash, '.');
            let seg = parse_numeral(chars, pos, dot);
            let ghost rest = core.skip(pos as int);
            let ghost piece = chars@.subrange(pos as int, dot as int);
            proof {
                assert(chars@.subrange(pos as int, dash as int) =~= rest);
                assert(index_of(rest, '.') == dot - pos);
                if dot < dash {
                    assert(rest.take(dot - pos) =~= piece);
                    assert(rest.skip(dot - pos + 1) =~= core.skip(dot + 1));
                    assert(segments(rest) == seq![piece] + segments(core.skip(dot + 1)));
                } else {
                    assert(rest =~= piece);
                    assert(segments(rest) == seq![piece]);
                }
                assert(segments(rest)[0] == piece);
                assert(segments(core)[count as int] == piece);
            }
            match seg {
                None => {
                    proof {
                        assert(!segment_ok(segments(core)[count as int]));
                    }
                    return Err(SemverError::InvalidVersionSyntax);
                },
                Some(v) => {
                    if count == 0 {
                        major = v;
                    } else if count == 1 {
                        minor = v;
                    } else {
                        patch = v;
                    }
                },
            }
            proof {
                done = done.push(piece);
            }
            count += 1;
            if dot == dash {
                proof {
                    assert(segments(core) =~= done);
                }
                break ;
            }
            if count == 3 {
                proof {
                    lemma_segments_nonempty(core.skip(dot + 1));
                    assert(segments(core).len() > 3);
                }
                return Err(SemverError::InvalidVersionSyntax);
            }
            proof {
                assert(segments(core) =~= done + segments(core.skip(dot + 1)));
            }
            pos = dot + 1;
        }
        let prerelease_info = if dash < plus {
            proof {
                assert(head.skip(dash + 1) =~= text.subrange(dash + 1, plus as int));
            }
            if dash + 1 == plus {
                return Err(SemverError::InvalidVersionSyntax);
            }
            Some(string_of_range(chars, dash + 1, plus))
        } else {
            None
        };
        let build_info = if plus < n {
            proof {
                assert(text.skip(plus + 1) =~= text.subrange(plus + 1, n as int));
            }
            if plus + 1 == n {
                return Err(SemverError::InvalidVersionSyntax);
            }
            Some(string_of_range(chars, plus + 1, n))
        } else {
            None
        };
        Ok(
            Version {
                major,
                minor,
                patch,
                prerelease_info,
                build_info,
            },
        )
    }
}

} // verus!
