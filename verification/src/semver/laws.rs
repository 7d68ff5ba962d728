//! What holds of every version and its text form.

use vstd::prelude::*;
use crate::semver::compare::{precedes, same_triple, version_order};
use crate::semver::range::{
    parse_range, prefix_len, range_bound, range_mark, range_of_prefix, range_text, RangeView,
};
use crate::semver::SemverError;
use crate::semver::{
    build_part, core_part, head_part, parse_version, prerelease_part, segment_ok, segments,
    tag_text, triple_text, version_text, Version, VersionView,
};
use crate::text::{
    free_of, index_of, is_digit, lemma_index_of_absent, lemma_index_of_first,
    lemma_index_of_split, lemma_numeral, lemma_numeral_free_of, numeral,
};

verus! {

/// The text of the three numbers holds neither `c`, for any `c` that is
/// neither a digit nor a dot.
proof fn lemma_triple_text_free_of(v: VersionView, c: char)
    requires
        !is_digit(c),
        c != '.',
    ensures
        free_of(triple_text(v), c),
{
    lemma_numeral_free_of(v.major, c);
    lemma_numeral_free_of(v.minor, c);
    lemma_numeral_free_of(v.patch, c);
    let a = numeral(v.major);
    let b = numeral(v.minor);
    let d = numeral(v.patch);
    let t = triple_text(v);
    assert forall|i: int| 0 <= i < t.len() implies t[i] != c by {
        if i < a.len() {
            assert(t[i] == a[i]);
        } else if i == a.len() {
        } else if i < a.len() + 1 + b.len() {
            assert(t[i] == b[i - a.len() - 1]);
        } else if i == a.len() + 1 + b.len() {
        } else {
            assert(t[i] == d[i - a.len() - 1 - b.len() - 1]);
        }
    }
}

/// The text of the three numbers splits at its dots into the three numerals.
proof fn lemma_segments_of_triple_text(v: VersionView)
    ensures
        segments(triple_text(v)) == seq![numeral(v.major), numeral(v.minor), numeral(v.patch)],
{
    let a = numeral(v.major);
    let b = numeral(v.minor);
    let d = numeral(v.patch);
    let t = triple_text(v);
    lemma_numeral_free_of(v.major, '.');
    lemma_numeral_free_of(v.minor, '.');
    lemma_numeral_free_of(v.patch, '.');
    let rest = b + seq!['.'] + d;
    assert(t =~= a + seq!['.'] + rest);
    lemma_index_of_split(a, '.', rest);
    lemma_index_of_split(b, '.', d);
    lemma_index_of_absent(d, '.');
    assert(segments(d) == seq![d]);
    assert(segments(rest) == seq![b] + segments(d));
    assert(segments(t) == seq![a] + segments(rest));
    assert(segments(t) =~= seq![a, b, d]);
}

/// A version that was read from a text is well formed.
pub proof fn lemma_parsed_is_wf(text: Seq<char>)
    requires
        parse_version(text) is Some,
    ensures
        parse_version(text)->0.wf(),
{
    let v = parse_version(text)->0;
    let segs = segments(core_part(text));
    crate::semver::lemma_segments_nonempty(core_part(text));
    assert(segment_ok(segs[0]));
    if segs.len() > 1 {
        assert(segment_ok(segs[1]));
    }
    if segs.len() > 2 {
        assert(segment_ok(segs[2]));
    }
    lemma_index_of_first(text, '+');
    let head = head_part(text);
    if let Some(p) = prerelease_part(text) {
        let dash = index_of(head, '-');
        lemma_index_of_first(head, '-');
        assert forall|i: int| 0 <= i < p.len() implies p[i] != '+' by {
            assert(p[i] == head[dash + 1 + i]);
            assert(p[i] == text[dash + 1 + i]);
        }
    }
}

/// The full text form of a well-formed version reads back as that version.
pub proof fn lemma_text_reads_back(v: VersionView)
    requires
        v.wf(),
    ensures
        parse_version(version_text(v)) == Some(v),
{
    let t = triple_text(v);
    let p = tag_text('-', v.prerelease_info);
    let b = tag_text('+', v.build_info);
    let text = version_text(v);
    lemma_triple_text_free_of(v, '+');
    lemma_triple_text_free_of(v, '-');
    let tp = t + p;
    // no `+` before the build tag
    assert(free_of(tp, '+')) by {
        assert forall|i: int| 0 <= i < tp.len() implies tp[i] != '+' by {
            if i < t.len() {
                assert(tp[i] == t[i]);
            } else if i > t.len() {
                assert(tp[i] == v.prerelease_info->0[i - t.len() - 1]);
            }
        }
    }
    match v.build_info {
        Some(tag) => {
            assert(text =~= tp + seq!['+'] + tag);
            lemma_index_of_split(tp, '+', tag);
        },
        None => {
            assert(text =~= tp);
            lemma_index_of_absent(tp, '+');
            assert(text.take(text.len() as int) =~= text);
        },
    }
    assert(head_part(text) == tp);
    assert(build_part(text) == v.build_info);
    match v.prerelease_info {
        Some(tag) => {
            assert(tp =~= t + seq!['-'] + tag);
            lemma_index_of_split(t, '-', tag);
        },
        None => {
            assert(tp =~= t);
            lemma_index_of_absent(t, '-');
            assert(tp.take(tp.len() as int) =~= tp);
        },
    }
    assert(core_part(text) == t);
    assert(prerelease_part(text) == v.prerelease_info);
    lemma_segments_of_triple_text(v);
    lemma_numeral(v.major);
    lemma_numeral(v.minor);
    lemma_numeral(v.patch);
    let segs = segments(t);
    assert(segs[0] == numeral(v.major));
    assert(segs[1] == numeral(v.minor));
    assert(segs[2] == numeral(v.patch));
    assert(parse_version(text)->0 =~= v);
}

/// Reading a text, writing the version out and reading it again gives the
/// same version: the numbers and both tags. Written without its tags, it
/// reads back with the same three numbers and no tag.
pub proof fn law_text_round_trip(text: Seq<char>)
    requires
        parse_version(text) is Some,
    ensures
        parse_version(version_text(parse_version(text)->0)) == parse_version(text),
        parse_version(triple_text(parse_version(text)->0)) == Some(parse_version(text)->0.bare()),
{
    let v = parse_version(text)->0;
    lemma_parsed_is_wf(text);
    lemma_text_reads_back(v);
    lemma_text_reads_back(v.bare());
    assert(version_text(v.bare()) =~= triple_text(v));
}

/// What `format` writes for a version that fits its type reads back as that
/// version, provided neither tag is empty and the pre-release tag holds no `+`.
pub proof fn law_format_reads_back(v: Version)
    requires
        v@.wf(),
    ensures
        parse_version(version_text(v@)) == Some(v@),
        parse_version(triple_text(v@)) == Some(v@.bare()),
{
    lemma_text_reads_back(v@);
    lemma_text_reads_back(v@.bare());
    assert(version_text(v@.bare()) =~= triple_text(v@));
}

/// The text form of a range whose version is well formed reads back as
/// that range.
pub proof fn law_range_text_reads_back(range: RangeView)
    requires
        range_bound(range) matches Some(bound) ==> bound.wf(),
    ensures
        parse_range(range_text(range)) == Ok::<RangeView, SemverError>(range),
{
    let text = range_text(range);
    match range_bound(range) {
        None => {
            assert(text =~= seq!['*']);
        },
        Some(bound) => {
            let written = version_text(bound);
            lemma_text_reads_back(bound);
            lemma_numeral(bound.major);
            assert(written[0] == numeral(bound.major)[0]);
            assert(is_digit(written[0]));
            let mark = range_mark(range);
            assert(text.len() == mark.len() + written.len());
            assert(text[mark.len() as int] == written[0]);
            if mark.len() > 0 {
                assert(text[0] == mark[0]);
            }
            if mark.len() > 1 {
                assert(text[1] == mark[1]);
            }
            assert(text != seq!['*']) by {
                if text == seq!['*'] {
                    assert(text[0] == '*');
                }
            }
            assert(prefix_len(text) == Some(mark.len() as int));
            assert(text.skip(mark.len() as int) =~= written);
            assert(range_of_prefix(text, bound) == range);
        },
    }
}

/// The ordering does not look at the tags.
pub proof fn law_order_ignores_tags(a: VersionView, b: VersionView)
    ensures
        version_order(a, b) == version_order(a.bare(), b.bare()),
        same_triple(a, b) <==> version_order(a, b) == core::cmp::Ordering::Equal,
{
}

/// The ordering is a strict total order on the three numbers.
pub proof fn law_order_is_total(a: VersionView, b: VersionView, c: VersionView)
    ensures
        !precedes(a, a),
        precedes(a, b) ==> !precedes(b, a),
        precedes(a, b) && precedes(b, c) ==> precedes(a, c),
        precedes(a, b) || precedes(b, a) || same_triple(a, b),
{
}

} // verus!
