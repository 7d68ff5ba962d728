//! How one string stands in the text of a lock file.
//!
//! A string is written as it is where that cannot be misread: it starts
//! with a letter, holds only printable ASCII characters, ends neither in a
//! colon nor in a space, holds no colon before a space and no space before
//! a number sign, and is not one of the words for null, true and false.
//! Any other
//! string of printable ASCII characters stands between single quotes, with
//! each single quote in it doubled. What is left stands between double
//! quotes, where a backslash precedes a double quote and a backslash, and
//! each character that is not printable ASCII is written as `\U` and the
//! eight hexadecimal digits of its number.

use vstd::prelude::*;
use crate::text::free_of;

verus! {

/// `char::from_u32` gives the character with the number `u`, where there is
/// one: every number up to 0x10FFFF but the surrogates.
pub assume_specification[ char::from_u32 ](u: u32) -> (r: Option<char>)
    ensures
        r == if u <= 0xD7FF || (0xE000 <= u && u <= 0x10FFFF) {
            Some(u as char)
        } else {
            None
        },
;

/// `c` is an ASCII letter.
pub open spec fn is_letter(c: char) -> bool {
    ('a' <= c && c <= 'z') || ('A' <= c && c <= 'Z')
}

/// `c` is a printable ASCII character, the space included.
pub open spec fn is_printable(c: char) -> bool {
    ' ' <= c && c <= '~'
}

/// `s` is one of the words that stand for null, true and false.
pub open spec fn is_reserved(s: Seq<char>) -> bool {
    s == "null"@ || s == "Null"@ || s == "NULL"@ || s == "true"@ || s == "True"@ || s == "TRUE"@
        || s == "false"@ || s == "False"@ || s == "FALSE"@
}

/// Every character of `s` is printable ASCII.
pub open spec fn all_printable(s: Seq<char>) -> bool {
    forall|i: int| 0 <= i < s.len() ==> is_printable(#[trigger] s[i])
}

/// `s` holds neither a colon before a space nor a space before a number sign.
pub open spec fn no_marks_inside(s: Seq<char>) -> bool {
    forall|i: int|
        0 <= i < s.len() - 1 ==> !(#[trigger] s[i] == ':' && s[i + 1] == ' ') && !(s[i] == ' '
            && s[i + 1] == '#')
}

/// `s` can stand as it is.
pub open spec fn plain_ok(s: Seq<char>) -> bool {
    &&& s.len() > 0
    &&& is_letter(s[0])
    &&& all_printable(s)
    &&& s.last() != ':'
    &&& s.last() != ' '
    &&& no_marks_inside(s)
    &&& !is_reserved(s)
}

/// The hexadecimal digit of `d`.
pub open spec fn hex_digit(d: u32) -> char
    recommends
        d < 16,
{
    if d < 10 {
        (('0' as u32 + d) as u8) as char
    } else {
        (('A' as u32 + d - 10) as u8) as char
    }
}

/// The eight hexadecimal digits of `n`, the highest first.
pub open spec fn hex8(n: u32) -> Seq<char> {
    seq![
        hex_digit((n >> 28) & 0xF),
        hex_digit((n >> 24) & 0xF),
        hex_digit((n >> 20) & 0xF),
        hex_digit((n >> 16) & 0xF),
        hex_digit((n >> 12) & 0xF),
        hex_digit((n >> 8) & 0xF),
        hex_digit((n >> 4) & 0xF),
        hex_digit(n & 0xF),
    ]
}

/// The two ways to quote a string.
pub ghost enum Quote {
    Single,
    Double,
}

/// The quotation mark of each way.
pub open spec fn mark(quote: Quote) -> char {
    match quote {
        Quote::Single => '\'',
        Quote::Double => '"',
    }
}

/// One character between quotes: between single quotes a single quote is
/// doubled; between double quotes a backslash precedes a double quote and a
/// backslash, and a character that is not printable ASCII is written as
/// `\U` and the eight hexadecimal digits of its number.
pub open spec fn quoted_char(quote: Quote, c: char) -> Seq<char> {
    match quote {
        Quote::Single => if c == '\'' {
            seq!['\'', '\'']
        } else {
            seq![c]
        },
        Quote::Double => if c == '"' {
            seq!['\\', '"']
        } else if c == '\\' {
            seq!['\\', '\\']
        } else if is_printable(c) {
            seq![c]
        } else {
            seq!['\\', 'U'] + hex8(c as u32)
        },
    }
}

/// The characters of `s` as they stand between quotes.
pub open spec fn quoted_body(quote: Quote, s: Seq<char>) -> Seq<char>
    decreases s.len(),
{
    if s.len() == 0 {
        Seq::empty()
    } else {
        quoted_body(quote, s.drop_last()) + quoted_char(quote, s.last())
    }
}

/// `s` between quotes.
pub open spec fn quoted(quote: Quote, s: Seq<char>) -> Seq<char> {
    seq![mark(quote)] + quoted_body(quote, s) + seq![mark(quote)]
}

/// How the string `s` stands in the text.
pub open spec fn scalar_text(s: Seq<char>) -> Seq<char> {
    if plain_ok(s) {
        s
    } else if all_printable(s) {
        quoted(Quote::Single, s)
    } else {
        quoted(Quote::Double, s)
    }
}

fn letter(c: char) -> (r: bool)
    ensures
        r == is_letter(c),
{
    (c >= 'a' && c <= 'z') || (c >= 'A' && c <= 'Z')
}

fn reserved(s: &str) -> (r: bool)
    ensures
        r == is_reserved(s@),
{
    s.eq("null") || s.eq("Null") || s.eq("NULL") || s.eq("true") || s.eq("True") || s.eq("TRUE")
        || s.eq("false") || s.eq("False") || s.eq("FALSE")
}

fn printable(chars: &Vec<char>) -> (r: bool)
    ensures
        r == all_printable(chars@),
{
    let mut i: usize = 0;
    while i < chars.len()
        invariant
            i <= chars.len(),
            forall|j: int| 0 <= j < i ==> is_printable(#[trigger] chars@[j]),
        decreases chars.len() - i,
    {
        if !(chars[i] >= ' ' && chars[i] <= '~') {
            return false;
        }
        i += 1;
    }
    true
}

fn without_marks_inside(chars: &Vec<char>) -> (r: bool)
    ensures
        r == no_marks_inside(chars@),
{
    let mut i: usize = 0;
    while i < chars.len() && i + 1 < chars.len()
        invariant
            forall|j: int|
                0 <= j < i && j < chars@.len() - 1 ==> !(#[trigger] chars@[j] == ':' && chars@[j
                    + 1] == ' ') && !(chars@[j] == ' ' && chars@[j + 1] == '#'),
        decreases chars.len() - i,
    {
        if (chars[i] == ':' && chars[i + 1] == ' ') || (chars[i] == ' ' && chars[i + 1] == '#') {
            return false;
        }
        i += 1;
    }
    true
}

fn hex_char(d: u32) -> (c: char)
    requires
        d < 16,
    ensures
        c == hex_digit(d),
{
    if d < 10 {
        (48u8 + d as u8) as char
    } else {
        (55u8 + d as u8) as char
    }
}

fn push_hex8(out: &mut String, n: u32)
    ensures
        final(out)@ == old(out)@ + hex8(n),
{
    assert((n >> 28) & 0xF < 16 && (n >> 24) & 0xF < 16 && (n >> 20) & 0xF < 16 && (n >> 16) & 0xF
        < 16 && (n >> 12) & 0xF < 16 && (n >> 8) & 0xF < 16 && (n >> 4) & 0xF < 16 && n & 0xF < 16)
        by (bit_vector);
    out.push(hex_char((n >> 28) & 0xF));
    out.push(hex_char((n >> 24) & 0xF));
    out.push(hex_char((n >> 20) & 0xF));
    out.push(hex_char((n >> 16) & 0xF));
    out.push(hex_char((n >> 12) & 0xF));
    out.push(hex_char((n >> 8) & 0xF));
    out.push(hex_char((n >> 4) & 0xF));
    out.push(hex_char(n & 0xF));
    assert(out@ =~= old(out)@ + hex8(n));
}

/// Appends to `out` how the string `s` stands in the text.
pub fn push_scalar(out: &mut String, s: &str)
    ensures
        final(out)@ == old(out)@ + scalar_text(s@),
{
    let chars = crate::text::chars_of(s);
    let n = chars.len();
    let ghost start = out@;
    let all = printable(&chars);
    if n > 0 && letter(chars[0]) && all && chars[n - 1] != ':' && chars[n - 1] != ' '
        && without_marks_inside(&chars) && !reserved(s) {
        out.append(s);
        return ;
    }
    if all {
        out.push('\'');
        let mut i: usize = 0;
        assert(chars@.take(0) =~= Seq::<char>::empty());
        assert(out@ =~= start + seq!['\''] + quoted_body(Quote::Single, chars@.take(0)));
        while i < n
            invariant
                i <= n,
                n == chars.len(),
                out@ == start + seq!['\''] + quoted_body(Quote::Single, chars@.take(i as int)),
            decreases n - i,
        {
            let ghost before = out@;
            proof {
                assert(chars@.take(i + 1).drop_last() =~= chars@.take(i as int));
            }
            if chars[i] == '\'' {
                out.push('\'');
            }
            out.push(chars[i]);
            assert(out@ =~= start + seq!['\''] + quoted_body(Quote::Single, chars@.take(i + 1)));
            i += 1;
        }
        out.push('\'');
        proof {
            assert(chars@.take(n as int) =~= chars@);
            assert(out@ =~= start + quoted(Quote::Single, chars@));
        }
        return ;
    }
    out.push('"');
    let mut i: usize = 0;
    assert(chars@.take(0) =~= Seq::<char>::empty());
    assert(out@ =~= start + seq!['"'] + quoted_body(Quote::Double, chars@.take(0)));
    while i < n
        invariant
            i <= n,
            n == chars.len(),
            out@ == start + seq!['"'] + quoted_body(Quote::Double, chars@.take(i as int)),
        decreases n - i,
    {
        let c = chars[i];
        let ghost before = out@;
        proof {
            assert(chars@.take(i + 1).drop_last() =~= chars@.take(i as int));
        }
        if c == '"' || c == '\\' {
            out.push('\\');
            out.push(c);
        } else if c >= ' ' && c <= '~' {
            out.push(c);
        } else {
            out.push('\\');
            out.push('U');
            push_hex8(out, c as u32);
        }
        assert(out@ =~= before + quoted_char(Quote::Double, c));
        assert(out@ =~= start + seq!['"'] + quoted_body(Quote::Double, chars@.take(i + 1)));
        i += 1;
    }
    out.push('"');
    proof {
        assert(chars@.take(n as int) =~= chars@);
        assert(out@ =~= start + quoted(Quote::Double, chars@));
    }
}

/// How many characters the first `k` characters of `s` take between quotes.
pub open spec fn body_len(quote: Quote, s: Seq<char>, k: int) -> int {
    quoted_body(quote, s.take(k)).len() as int
}

/// What the first `k` characters of `s` come to between quotes is the
/// start of what all of `s` comes to.
pub proof fn lemma_body_prefix(quote: Quote, s: Seq<char>, k: int)
    requires
        0 <= k <= s.len(),
    ensures
        body_len(quote, s, k) <= quoted_body(quote, s).len(),
        quoted_body(quote, s.take(k)) == quoted_body(quote, s).take(body_len(quote, s, k)),
    decreases s.len() - k,
{
    if k == s.len() {
        assert(s.take(k) =~= s);
        assert(quoted_body(quote, s).take(quoted_body(quote, s).len() as int) =~= quoted_body(
            quote,
            s,
        ));
    } else {
        lemma_body_prefix(quote, s, k + 1);
        assert(s.take(k + 1).drop_last() =~= s.take(k));
        let whole = quoted_body(quote, s);
        let longer = quoted_body(quote, s.take(k + 1));
        let shorter = quoted_body(quote, s.take(k));
        assert(longer == shorter + quoted_char(quote, s[k]));
        assert(shorter =~= longer.take(shorter.len() as int));
        assert(longer.take(shorter.len() as int) =~= whole.take(shorter.len() as int));
    }
}

/// Between quotes, the character at `k` stands right after the characters
/// before it.
pub proof fn lemma_body_step(quote: Quote, s: Seq<char>, k: int)
    requires
        0 <= k < s.len(),
    ensures
        body_len(quote, s, k + 1) == body_len(quote, s, k) + quoted_char(quote, s[k]).len(),
        body_len(quote, s, k + 1) <= quoted_body(quote, s).len(),
        quoted_body(quote, s).subrange(body_len(quote, s, k), body_len(quote, s, k + 1))
            == quoted_char(quote, s[k]),
        quoted_char(quote, s[k]).len() >= 1,
{
    lemma_body_prefix(quote, s, k);
    lemma_body_prefix(quote, s, k + 1);
    assert(s.take(k + 1).drop_last() =~= s.take(k));
    let whole = quoted_body(quote, s);
    let longer = quoted_body(quote, s.take(k + 1));
    let shorter = quoted_body(quote, s.take(k));
    assert(longer == shorter + quoted_char(quote, s[k]));
    let p = shorter.len() as int;
    let q = longer.len() as int;
    assert(longer == whole.take(q));
    assert(longer.subrange(p, q) =~= quoted_char(quote, s[k]));
    assert(whole.subrange(p, q) =~= whole.take(q).subrange(p, q));
}

/// At `from`, `line` holds `s` between quotes and then `tail`.
pub open spec fn holds_quoted(line: Seq<char>, from: int, quote: Quote, s: Seq<char>, tail: Seq<char>) -> bool {
    &&& 0 <= from <= line.len()
    &&& line.skip(from) == quoted(quote, s) + tail
}

/// Where `line` holds `s` between quotes at `from`, the characters after
/// the opening mark are those of the body, and the closing mark follows.
proof fn lemma_holds_quoted(line: Seq<char>, from: int, quote: Quote, s: Seq<char>, tail: Seq<char>)
    requires
        holds_quoted(line, from, quote, s, tail),
    ensures
        from + quoted_body(quote, s).len() + 2 + tail.len() == line.len(),
        line[from] == mark(quote),
        forall|j: int|
            0 <= j < quoted_body(quote, s).len() ==> line[from + 1 + j] == quoted_body(quote, s)[j],
        line[from + 1 + quoted_body(quote, s).len()] == mark(quote),
        forall|j: int|
            0 <= j < tail.len() ==> line[from + 2 + quoted_body(quote, s).len() + j] == tail[j],
{
    let rest = line.skip(from);
    let body = quoted_body(quote, s);
    let n = body.len() as int;
    assert(rest.len() == n + 2 + tail.len());
    assert(rest[0] == mark(quote));
    assert forall|j: int| 0 <= j < n implies line[from + 1 + j] == body[j] by {
        assert(rest[1 + j] == body[j]);
    }
    assert(rest[1 + n] == mark(quote));
    assert forall|j: int| 0 <= j < tail.len() implies line[from + 2 + n + j] == tail[j] by {
        assert(rest[2 + n + j] == tail[j]);
    }
}

/// `r` is the string `s`, read up to `end`.
pub open spec fn reads(r: Option<(String, usize)>, s: Seq<char>, end: int) -> bool {
    match r {
        Some(found) => found.0@ == s && found.1 == end,
        None => false,
    }
}

/// Reads the string that stands between single quotes at `from`.
///
/// Where the line holds there a string `s` between single quotes, and then
/// no further single quote, the result is `s` and the index after the
/// closing quote.
pub(crate) fn read_single(line: &Vec<char>, from: usize, Ghost(s): Ghost<Seq<char>>, Ghost(tail): Ghost<
    Seq<char>,
>) -> (r: Option<(String, usize)>)
    requires
        from < line.len(),
    ensures
        r matches Some((_, end)) ==> from < end <= line.len(),
        holds_quoted(line@, from as int, Quote::Single, s, tail) && (tail.len() == 0 || tail[0]
            != '\'') ==> reads(r, s, from + quoted(Quote::Single, s).len()),
{
    let ghost given = holds_quoted(line@, from as int, Quote::Single, s, tail) && (tail.len() == 0
        || tail[0] != '\'');
    let ghost body = quoted_body(Quote::Single, s);
    proof {
        if given {
            lemma_holds_quoted(line@, from as int, Quote::Single, s, tail);
        }
    }
    if line[from] != '\'' {
        return None;
    }
    let mut out = String::new();
    let mut i: usize = from + 1;
    let ghost mut k: int = 0;
    proof {
        assert(s.take(0) =~= Seq::<char>::empty());
    }
    loop
        invariant
            from < i <= line.len(),
            body == quoted_body(Quote::Single, s),
            given == (holds_quoted(line@, from as int, Quote::Single, s, tail) && (tail.len() == 0
                || tail[0] != '\'')),
            given ==> from + body.len() + 2 + tail.len() == line.len(),
            given ==> forall|j: int| 0 <= j < body.len() ==> line@[from + 1 + j] == body[j],
            given ==> line@[from + 1 + body.len()] == '\'',
            given ==> forall|j: int| 0 <= j < tail.len() ==> line@[from + 2 + body.len() + j] == tail[j],
            given ==> 0 <= k <= s.len() && i == from + 1 + body_len(Quote::Single, s, k) && out@
                == s.take(k),
        decreases line.len() - i,
    {
        proof {
            if given {
                lemma_body_prefix(Quote::Single, s, k);
                if k < s.len() {
                    lemma_body_step(Quote::Single, s, k);
                    let p = body_len(Quote::Single, s, k);
                    let e = quoted_char(Quote::Single, s[k]);
                    assert(body.subrange(p, p + e.len())[0] == e[0]);
                    if e.len() == 2 {
                        assert(body.subrange(p, p + e.len())[1] == e[1]);
                    }
                    assert(s.take(k + 1) =~= s.take(k).push(s[k]));
                } else {
                    assert(s.take(k) =~= s);
                }
            }
        }
        if i >= line.len() {
            return None;
        }
        let c = line[i];
        if c == '\'' {
            if i + 1 < line.len() && line[i + 1] == '\'' {
                out.push('\'');
                i += 2;
                proof {
                    k = k + 1;
                }
            } else {
                return Some((out, i + 1));
            }
        } else {
            out.push(c);
            i += 1;
            proof {
                k = k + 1;
            }
        }
    }
}

proof fn lemma_char_number(c: char)
    ensures
        (c as u32) <= 0xD7FF || (0xE000 <= (c as u32) && (c as u32) <= 0x10FFFF),
        ((c as u32) as char) == c,
{
}

fn hex_value(c: char) -> (r: Option<u32>)
    ensures
        r matches Some(d) ==> d < 16,
        forall|d: u32| d < 16 && c == hex_digit(d) ==> r == Some(d),
{
    if c >= '0' && c <= '9' {
        Some(c as u32 - 48)
    } else if c >= 'A' && c <= 'F' {
        Some(c as u32 - 55)
    } else {
        None
    }
}

/// The number that the eight hexadecimal digits at `at` denote.
fn read_hex8(line: &Vec<char>, at: usize, Ghost(n): Ghost<u32>) -> (r: Option<u32>)
    requires
        at + 8 <= line.len(),
    ensures
        line@.subrange(at as int, at + 8) == hex8(n) ==> r == Some(n),
{
    let ghost digits = line@.subrange(at as int, at + 8);
    proof {
        assert(digits[0] == line@[at + 0] && digits[1] == line@[at + 1] && digits[2] == line@[at
            + 2] && digits[3] == line@[at + 3] && digits[4] == line@[at + 4] && digits[5]
            == line@[at + 5] && digits[6] == line@[at + 6] && digits[7] == line@[at + 7]);
        assert((n >> 28) & 0xF < 16 && (n >> 24) & 0xF < 16 && (n >> 20) & 0xF < 16 && (n >> 16)
            & 0xF < 16 && (n >> 12) & 0xF < 16 && (n >> 8) & 0xF < 16 && (n >> 4) & 0xF < 16 && n
            & 0xF < 16) by (bit_vector);
        assert((((n >> 28) & 0xF) << 28) | (((n >> 24) & 0xF) << 24) | (((n >> 20) & 0xF) << 20) | (((
        n >> 16) & 0xF) << 16) | (((n >> 12) & 0xF) << 12) | (((n >> 8) & 0xF) << 8) | (((n >> 4)
            & 0xF) << 4) | (n & 0xF) == n) by (bit_vector);
    }
    let v0 = match hex_value(line[at]) {
        Some(v) => v,
        None => {
            return None;
        },
    };
    let v1 = match hex_value(line[at + 1]) {
        Some(v) => v,
        None => {
            return None;
        },
    };
    let v2 = match hex_value(line[at + 2]) {
        Some(v) => v,
        None => {
            return None;
        },
    };
    let v3 = match hex_value(line[at + 3]) {
        Some(v) => v,
        None => {
            return None;
        },
    };
    let v4 = match hex_value(line[at + 4]) {
        Some(v) => v,
        None => {
            return None;
        },
    };
    let v5 = match hex_value(line[at + 5]) {
        Some(v) => v,
        None => {
            return None;
        },
    };
    let v6 = match hex_value(line[at + 6]) {
        Some(v) => v,
        None => {
            return None;
        },
    };
    let v7 = match hex_value(line[at + 7]) {
        Some(v) => v,
        None => {
            return None;
        },
    };
    Some((v0 << 28) | (v1 << 24) | (v2 << 20) | (v3 << 16) | (v4 << 12) | (v5 << 8) | (v6 << 4) | v7)
}

/// Reads the string that stands between double quotes at `from`.
///
/// Where the line holds there a string `s` between double quotes, the
/// result is `s` and the index after the closing quote.
pub(crate) fn read_double(line: &Vec<char>, from: usize, Ghost(s): Ghost<Seq<char>>, Ghost(tail): Ghost<
    Seq<char>,
>) -> (r: Option<(String, usize)>)
    requires
        from < line.len(),
    ensures
        r matches Some((_, end)) ==> from < end <= line.len(),
        holds_quoted(line@, from as int, Quote::Double, s, tail) ==> reads(
            r,
            s,
            from + quoted(Quote::Double, s).len(),
        ),
{
    let ghost given = holds_quoted(line@, from as int, Quote::Double, s, tail);
    let ghost body = quoted_body(Quote::Double, s);
    proof {
        if given {
            lemma_holds_quoted(line@, from as int, Quote::Double, s, tail);
        }
    }
    if line[from] != '"' {
        return None;
    }
    let mut out = String::new();
    let mut i: usize = from + 1;
    let ghost mut k: int = 0;
    proof {
        assert(s.take(0) =~= Seq::<char>::empty());
    }
    loop
        invariant
            from < i <= line.len(),
            body == quoted_body(Quote::Double, s),
            given == holds_quoted(line@, from as int, Quote::Double, s, tail),
            given ==> from + body.len() + 2 + tail.len() == line.len(),
            given ==> forall|j: int| 0 <= j < body.len() ==> line@[from + 1 + j] == body[j],
            given ==> line@[from + 1 + body.len()] == '"',
            given ==> 0 <= k <= s.len() && i == from + 1 + body_len(Quote::Double, s, k) && out@
                == s.take(k),
        decreases line.len() - i,
    {
        let ghost e = if 0 <= k < s.len() {
            quoted_char(Quote::Double, s[k])
        } else {
            Seq::empty()
        };
        proof {
            if given {
                lemma_body_prefix(Quote::Double, s, k);
                if k < s.len() {
                    lemma_body_step(Quote::Double, s, k);
                    let p = body_len(Quote::Double, s, k);
                    assert(body.subrange(p, p + e.len()) == e);
                    assert forall|j: int| 0 <= j < e.len() implies line@[i + j] == e[j] by {
                        assert(body.subrange(p, p + e.len())[j] == body[p + j]);
                    }
                    assert(line@[i as int] == e[0]);
                    assert(s.take(k + 1) =~= s.take(k).push(s[k]));
                } else {
                    assert(s.take(k) =~= s);
                }
            }
        }
        if i >= line.len() {
            return None;
        }
        let c = line[i];
        if c == '"' {
            return Some((out, i + 1));
        } else if c == '\\' {
            if i + 1 >= line.len() {
                return None;
            }
            let d = line[i + 1];
            proof {
                if given {
                    assert(line@[i + 1] == e[1]);
                }
            }
            if d == '"' || d == '\\' {
                out.push(d);
                i += 2;
            } else if d == 'U' {
                if line.len() - i < 10 {
                    return None;
                }
                let ghost number = if 0 <= k < s.len() {
                    s[k] as u32
                } else {
                    0u32
                };
                proof {
                    if given {
                        assert(e =~= seq!['\\', 'U'] + hex8(number));
                        assert forall|j: int| 0 <= j < 8 implies line@.subrange(i + 2, i + 10)[j]
                            == hex8(number)[j] by {
                            assert(line@[i + (2 + j)] == e[2 + j]);
                        }
                        assert(line@.subrange(i + 2, i + 10) =~= hex8(number));
                        lemma_char_number(s[k]);
                    }
                }
                let u = match read_hex8(line, i + 2, Ghost(number)) {
                    Some(u) => u,
                    None => {
                        return None;
                    },
                };
                let ch = match char::from_u32(u) {
                    Some(ch) => ch,
                    None => {
                        return None;
                    },
                };
                proof {
                    if given {
                        assert(ch == s[k]);
                    }
                }
                out.push(ch);
                i += 10;
            } else {
                return None;
            }
            proof {
                k = k + 1;
            }
        } else {
            out.push(c);
            i += 1;
            proof {
                k = k + 1;
            }
        }
    }
}

/// What follows a key: a colon, and then the end of the line or a space.
pub open spec fn follows_key(tail: Seq<char>) -> bool {
    tail.len() >= 1 && tail[0] == ':' && (tail.len() == 1 || tail[1] == ' ')
}

/// At `from`, `line` holds the string `s` as it stands in the text, and
/// then `tail`.
pub open spec fn holds_scalar(line: Seq<char>, from: int, s: Seq<char>, tail: Seq<char>) -> bool {
    &&& 0 <= from <= line.len()
    &&& line.skip(from) == scalar_text(s) + tail
}

/// Reads the key that stands at `from`: a string and, after it, a colon
/// that ends the line or stands before a space.
///
/// Where the line holds there a string `s` as it stands in the text, and
/// then such a colon, the result is `s` and the index of the colon.
pub(crate) fn read_key(line: &Vec<char>, from: usize, Ghost(s): Ghost<Seq<char>>, Ghost(tail): Ghost<
    Seq<char>,
>) -> (r: Option<(String, usize)>)
    ensures
        r matches Some((_, end)) ==> from <= end <= line.len(),
        holds_scalar(line@, from as int, s, tail) && follows_key(tail) ==> reads(
            r,
            s,
            from + scalar_text(s).len(),
        ),
{
    let ghost given = holds_scalar(line@, from as int, s, tail) && follows_key(tail);
    let ghost written = scalar_text(s);
    proof {
        if given {
            let rest = line@.skip(from as int);
            assert(rest.len() == written.len() + tail.len());
            assert(rest[0] == line@[from as int]);
            assert forall|j: int| 0 <= j < written.len() implies line@[from + j] == written[j] by {
                assert(rest[j] == written[j]);
            }
            assert(line@[from + written.len()] == tail[0]) by {
                assert(rest[written.len() as int] == tail[0]);
            }
            if tail.len() > 1 {
                assert(rest[written.len() as int + 1] == tail[1]);
            }
        }
    }
    if from >= line.len() {
        return None;
    }
    let first = line[from];
    if first == '\'' {
        return read_single(line, from, Ghost(s), Ghost(tail));
    }
    if first == '"' {
        return read_double(line, from, Ghost(s), Ghost(tail));
    }
    let mut i: usize = from;
    while i < line.len() && !(line[i] == ':' && (i + 1 == line.len() || line[i + 1] == ' '))
        invariant
            from <= i <= line.len(),
            given ==> written == s && plain_ok(s),
            given ==> i <= from + s.len() < line.len(),
            given ==> forall|j: int| 0 <= j < s.len() ==> line@[from + j] == s[j],
            given ==> line@[from + s.len()] == ':',
            given ==> from + s.len() + 1 == line.len() || line@[from + s.len() + 1] == ' ',
        decreases line.len() - i,
    {
        proof {
            if given {
                if i == from + s.len() {
                    assert(false);
                }
            }
        }
        i += 1;
    }
    proof {
        if given {
            if i < from + s.len() {
                let j = i - from;
                assert(line@[from + j] == s[j]);
                if j + 1 < s.len() {
                    assert(line@[from + (j + 1)] == s[j + 1]);
                    assert(!(s[j] == ':' && s[j + 1] == ' '));
                }
            }
            assert(line@.subrange(from as int, i as int) =~= s);
        }
    }
    Some((crate::text::string_of_range(line, from, i), i))
}

/// Reads the value that stands from `from` to the end of the line.
///
/// Where the rest of the line is a string `s` as it stands in the text,
/// the result is `s`.
pub(crate) fn read_value(line: &Vec<char>, from: usize, Ghost(s): Ghost<Seq<char>>) -> (r: Option<String>)
    ensures
        holds_scalar(line@, from as int, s, Seq::empty()) ==> (r matches Some(text) && text@ == s),
{
    let ghost given = holds_scalar(line@, from as int, s, Seq::empty());
    let ghost written = scalar_text(s);
    proof {
        if given {
            assert(written + Seq::<char>::empty() =~= written);
            assert(line@.skip(from as int)[0] == line@[from as int]);
        }
    }
    if from >= line.len() {
        return None;
    }
    let first = line[from];
    let found = if first == '\'' {
        read_single(line, from, Ghost(s), Ghost(Seq::empty()))
    } else if first == '"' {
        read_double(line, from, Ghost(s), Ghost(Seq::empty()))
    } else {
        proof {
            if given {
                assert(line@.subrange(from as int, line@.len() as int) =~= s);
            }
        }
        Some((crate::text::string_of_range(line, from, line.len()), line.len()))
    };
    match found {
        Some((text, end)) => {
            if end == line.len() {
                Some(text)
            } else {
                None
            }
        },
        None => None,
    }
}

/// No string is written with a line feed in it, and every string is
/// written with at least one character.
pub proof fn lemma_scalar_text(s: Seq<char>)
    ensures
        free_of(scalar_text(s), '\n'),
        scalar_text(s).len() > 0,
        scalar_text(s)[0] != ' ',
        scalar_text(s)[0] != '-',
{
    if plain_ok(s) {
        assert forall|i: int| 0 <= i < s.len() implies s[i] != '\n' by {
            assert(is_printable(s[i]));
        }
    } else if all_printable(s) {
        lemma_body_free_of_line_feed(Quote::Single, s);
    } else {
        lemma_body_free_of_line_feed(Quote::Double, s);
    }
}

proof fn lemma_hex8_free_of_line_feed(n: u32)
    ensures
        free_of(hex8(n), '\n'),
{
    assert((n >> 28) & 0xF < 16 && (n >> 24) & 0xF < 16 && (n >> 20) & 0xF < 16 && (n >> 16) & 0xF
        < 16 && (n >> 12) & 0xF < 16 && (n >> 8) & 0xF < 16 && (n >> 4) & 0xF < 16 && n & 0xF < 16)
        by (bit_vector);
    assert forall|d: u32| d < 16 implies #[trigger] hex_digit(d) != '\n' by {}
}

proof fn lemma_body_free_of_line_feed(quote: Quote, s: Seq<char>)
    requires
        quote == Quote::Single ==> all_printable(s),
    ensures
        free_of(quoted_body(quote, s), '\n'),
        free_of(quoted(quote, s), '\n'),
    decreases s.len(),
{
    if s.len() > 0 {
        lemma_body_free_of_line_feed(quote, s.drop_last());
        let c = s.last();
        assert(is_printable(c) || quote == Quote::Double);
        lemma_hex8_free_of_line_feed(c as u32);
        assert(free_of(quoted_char(quote, c), '\n'));
    }
    let body = quoted_body(quote, s);
    assert forall|i: int| 0 <= i < quoted(quote, s).len() implies quoted(quote, s)[i] != '\n' by {
        if 1 <= i <= body.len() {
            assert(quoted(quote, s)[i] == body[i - 1]);
        }
    }
}

} // verus!
