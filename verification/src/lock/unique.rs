//! No two strings are written alike: what stands in the text of a lock
//! file can be read in one way only.

use vstd::prelude::*;
use crate::lock::parse::{after_key, key_of, lemma_token_head, value_of};
use crate::lock::text::{
    binaries_section, lock_tokens, package_tokens, packages_section, packages_tokens, set_tokens,
    token_lines, token_text, TokenView,
};
use crate::lock::{LockView, PackageView};
use crate::text::lemma_numeral;
use crate::lock::scalar::{
    all_printable, follows_key, hex8, hex_digit, mark, plain_ok, quoted, quoted_body, quoted_char,
    scalar_text, Quote,
};

verus! {

/// Between quotes, a string starts with its first character and goes on
/// with the rest.
pub proof fn lemma_body_front(quote: Quote, s: Seq<char>)
    requires
        s.len() > 0,
    ensures
        quoted_body(quote, s) == quoted_char(quote, s[0]) + quoted_body(quote, s.drop_first()),
    decreases s.len(),
{
    if s.len() == 1 {
        assert(s.drop_last() =~= Seq::<char>::empty());
        assert(s.drop_first() =~= Seq::<char>::empty());
        assert(quoted_body(quote, s.drop_last()) =~= Seq::<char>::empty());
        assert(quoted_body(quote, s.drop_first()) =~= Seq::<char>::empty());
        assert(quoted_body(quote, s) =~= quoted_char(quote, s[0]));
        assert(quoted_char(quote, s[0]) + quoted_body(quote, s.drop_first()) =~= quoted_char(
            quote,
            s[0],
        ));
    } else {
        lemma_body_front(quote, s.drop_last());
        assert(s.drop_first().drop_last() =~= s.drop_last().drop_first());
        assert(s.drop_first().last() == s.last());
        assert(s.drop_last()[0] == s[0]);
        assert(quoted_body(quote, s) =~= quoted_char(quote, s[0]) + quoted_body(
            quote,
            s.drop_first(),
        ));
    }
}

/// A hexadecimal digit tells its number.
proof fn lemma_hex_digit_unique(x: u32, y: u32)
    requires
        x < 16,
        y < 16,
        hex_digit(x) == hex_digit(y),
    ensures
        x == y,
{
}

/// The four bits of `n` from bit `at` on.
spec fn nibble(n: u32, at: u32) -> u32 {
    (n >> at) & 0xF
}

proof fn lemma_nibble(n: u32, at: u32)
    requires
        at < 32,
    ensures
        nibble(n, at) < 16,
{
    assert((n >> at) & 0xF < 16) by (bit_vector)
        requires
            at < 32,
    ;
}

proof fn lemma_nibbles_tell(a: u32, b: u32)
    requires
        nibble(a, 28) == nibble(b, 28),
        nibble(a, 24) == nibble(b, 24),
        nibble(a, 20) == nibble(b, 20),
        nibble(a, 16) == nibble(b, 16),
        nibble(a, 12) == nibble(b, 12),
        nibble(a, 8) == nibble(b, 8),
        nibble(a, 4) == nibble(b, 4),
        nibble(a, 0) == nibble(b, 0),
    ensures
        a == b,
{
    assert(a == b) by (bit_vector)
        requires
            (a >> 28) & 0xF == (b >> 28) & 0xF,
            (a >> 24) & 0xF == (b >> 24) & 0xF,
            (a >> 20) & 0xF == (b >> 20) & 0xF,
            (a >> 16) & 0xF == (b >> 16) & 0xF,
            (a >> 12) & 0xF == (b >> 12) & 0xF,
            (a >> 8) & 0xF == (b >> 8) & 0xF,
            (a >> 4) & 0xF == (b >> 4) & 0xF,
            (a >> 0) & 0xF == (b >> 0) & 0xF,
    ;
}

/// The eight hexadecimal digits tell the number.
pub proof fn lemma_hex8_unique(a: u32, b: u32)
    requires
        hex8(a) == hex8(b),
    ensures
        a == b,
{
    assert(a & 0xF == (a >> 0) & 0xF) by (bit_vector);
    assert(b & 0xF == (b >> 0) & 0xF) by (bit_vector);
    lemma_nibble(a, 28);
    lemma_nibble(b, 28);
    assert(hex8(a)[0] == hex8(b)[0]);
    lemma_hex_digit_unique(nibble(a, 28), nibble(b, 28));
    lemma_nibble(a, 24);
    lemma_nibble(b, 24);
    assert(hex8(a)[1] == hex8(b)[1]);
    lemma_hex_digit_unique(nibble(a, 24), nibble(b, 24));
    lemma_nibble(a, 20);
    lemma_nibble(b, 20);
    assert(hex8(a)[2] == hex8(b)[2]);
    lemma_hex_digit_unique(nibble(a, 20), nibble(b, 20));
    lemma_nibble(a, 16);
    lemma_nibble(b, 16);
    assert(hex8(a)[3] == hex8(b)[3]);
    lemma_hex_digit_unique(nibble(a, 16), nibble(b, 16));
    lemma_nibble(a, 12);
    lemma_nibble(b, 12);
    assert(hex8(a)[4] == hex8(b)[4]);
    lemma_hex_digit_unique(nibble(a, 12), nibble(b, 12));
    lemma_nibble(a, 8);
    lemma_nibble(b, 8);
    assert(hex8(a)[5] == hex8(b)[5]);
    lemma_hex_digit_unique(nibble(a, 8), nibble(b, 8));
    lemma_nibble(a, 4);
    lemma_nibble(b, 4);
    assert(hex8(a)[6] == hex8(b)[6]);
    lemma_hex_digit_unique(nibble(a, 4), nibble(b, 4));
    lemma_nibble(a, 0);
    lemma_nibble(b, 0);
    assert(hex8(a)[7] == hex8(b)[7]);
    lemma_hex_digit_unique(nibble(a, 0), nibble(b, 0));
    lemma_nibbles_tell(a, b);
}

/// What may follow a closing quote: after a single quote, no further
/// single quote.
pub open spec fn closes(quote: Quote, rest: Seq<char>) -> bool {
    quote == Quote::Single ==> rest.len() == 0 || rest[0] != '\''
}

/// A character between quotes does not start like the closing quote, and
/// two characters written alike at the start of two texts are the same.
proof fn lemma_quoted_char(quote: Quote, a: char, x: Seq<char>, b: char, y: Seq<char>)
    requires
        quoted_char(quote, a) + x == quoted_char(quote, b) + y,
    ensures
        a == b,
        x == y,
{
    let ea = quoted_char(quote, a);
    let eb = quoted_char(quote, b);
    let whole = ea + x;
    assert(whole[0] == ea[0] && whole[0] == eb[0]);
    match quote {
        Quote::Single => {
            if a == '\'' || b == '\'' {
                assert(a == '\'' && b == '\'');
            }
        },
        Quote::Double => {
            if ea[0] == '\\' {
                assert(ea.len() >= 2 && eb.len() >= 2);
                assert(whole[1] == ea[1] && whole[1] == eb[1]);
                if ea[1] == 'U' {
                    assert(ea.len() == 10 && eb.len() == 10);
                    let ha = hex8(a as u32);
                    let hb = hex8(b as u32);
                    assert(ha =~= hb) by {
                        assert forall|j: int| 0 <= j < 8 implies #[trigger] ha[j] == hb[j] by {
                            assert(whole[2 + j] == ea[2 + j]);
                            assert(whole[2 + j] == eb[2 + j]);
                        }
                    }
                    lemma_hex8_unique(a as u32, b as u32);
                }
            }
        },
    }
    assert(ea == eb);
    assert(whole.len() == ea.len() + x.len());
    assert((eb + y).len() == eb.len() + y.len());
    assert(x =~= y) by {
        assert(x.len() == y.len());
        assert forall|j: int| 0 <= j < x.len() implies x[j] == y[j] by {
            assert(whole[ea.len() + j] == x[j]);
            assert(whole[eb.len() + j] == y[j]);
        }
    }
}

/// What follows the same start is the same.
proof fn lemma_cancel(start: Seq<char>, x: Seq<char>, y: Seq<char>)
    requires
        start + x == start + y,
    ensures
        x == y,
{
    assert((start + x).len() == start.len() + x.len());
    assert((start + y).len() == start.len() + y.len());
    assert(x =~= y) by {
        assert forall|j: int| 0 <= j < x.len() implies x[j] == y[j] by {
            assert((start + x)[start.len() + j] == x[j]);
            assert((start + y)[start.len() + j] == y[j]);
        }
    }
}

/// The text of a string between quotes, its closing quote and what
/// follows, taken apart at the first character.
proof fn lemma_quoted_front(quote: Quote, s: Seq<char>, rest: Seq<char>)
    ensures
        s.len() == 0 ==> quoted_body(quote, s) + seq![mark(quote)] + rest == seq![mark(quote)]
            + rest,
        s.len() > 0 ==> quoted_body(quote, s) + seq![mark(quote)] + rest == quoted_char(
            quote,
            s[0],
        ) + (quoted_body(quote, s.drop_first()) + seq![mark(quote)] + rest),
{
    let m = mark(quote);
    if s.len() == 0 {
        assert(quoted_body(quote, s) + seq![m] + rest =~= seq![m] + rest);
    } else {
        lemma_body_front(quote, s);
        assert(quoted_body(quote, s) + seq![m] + rest =~= quoted_char(quote, s[0]) + (quoted_body(
            quote,
            s.drop_first(),
        ) + seq![m] + rest));
    }
}

/// Two strings that stand alike between quotes, each before its closing
/// quote, are the same string, and what follows them is the same.
pub proof fn lemma_quoted_unique(quote: Quote, a: Seq<char>, x: Seq<char>, b: Seq<char>, y: Seq<char>)
    requires
        quoted_body(quote, a) + seq![mark(quote)] + x == quoted_body(quote, b) + seq![mark(quote)]
            + y,
        closes(quote, x),
        closes(quote, y),
    ensures
        a == b,
        x == y,
    decreases a.len() + b.len(),
{
    let m = mark(quote);
    lemma_quoted_front(quote, a, x);
    lemma_quoted_front(quote, b, y);
    if a.len() == 0 && b.len() == 0 {
        assert(a =~= b);
        lemma_cancel(seq![m], x, y);
    } else if a.len() == 0 {
        lemma_starts_unlike_mark(quote, b[0], quoted_body(quote, b.drop_first()) + seq![m] + y, x);
    } else if b.len() == 0 {
        lemma_starts_unlike_mark(quote, a[0], quoted_body(quote, a.drop_first()) + seq![m] + x, y);
    } else {
        let rest_a = quoted_body(quote, a.drop_first()) + seq![m] + x;
        let rest_b = quoted_body(quote, b.drop_first()) + seq![m] + y;
        lemma_quoted_char(quote, a[0], rest_a, b[0], rest_b);
        lemma_quoted_unique(quote, a.drop_first(), x, b.drop_first(), y);
        assert(a =~= seq![a[0]] + a.drop_first());
        assert(b =~= seq![b[0]] + b.drop_first());
    }
}

/// A text that starts with a character between quotes is not a text that
/// starts with the closing quote.
proof fn lemma_starts_unlike_mark(quote: Quote, c: char, after: Seq<char>, rest: Seq<char>)
    requires
        closes(quote, rest),
    ensures
        quoted_char(quote, c) + after != seq![mark(quote)] + rest,
{
    let e = quoted_char(quote, c);
    let left = e + after;
    let right = seq![mark(quote)] + rest;
    if left == right {
        assert(left[0] == e[0]);
        assert(right[0] == mark(quote));
        match quote {
            Quote::Single => {
                assert(c == '\'');
                assert(left[1] == e[1]);
                assert(right[1] == rest[0]);
            },
            Quote::Double => {},
        }
    }
}

/// What stands after a string: nothing where it is a value, a colon that
/// ends the line or stands before a space where it is a key.
pub open spec fn ends(tail: Seq<char>) -> bool {
    tail.len() == 0 || follows_key(tail)
}

/// Two strings that are written alike, each as a value or each as a key,
/// are the same string.
pub proof fn lemma_scalar_unique(a: Seq<char>, x: Seq<char>, b: Seq<char>, y: Seq<char>)
    requires
        scalar_text(a) + x == scalar_text(b) + y,
        ends(x),
        ends(y),
        x.len() == 0 <==> y.len() == 0,
    ensures
        a == b,
        x == y,
{
    let left = scalar_text(a) + x;
    let right = scalar_text(b) + y;
    crate::lock::scalar::lemma_scalar_text(a);
    crate::lock::scalar::lemma_scalar_text(b);
    assert(left[0] == scalar_text(a)[0]);
    assert(right[0] == scalar_text(b)[0]);
    assert(left.len() == scalar_text(a).len() + x.len());
    assert(right.len() == scalar_text(b).len() + y.len());
    if plain_ok(a) {
        assert(plain_ok(b));
        if a.len() < b.len() {
            let n = a.len() as int;
            assert(x.len() > 0);
            assert(left[n] == x[0]);
            assert(right[n] == b[n]);
            if n + 1 < b.len() {
                assert(left[n + 1] == x[1]);
                assert(right[n + 1] == b[n + 1]);
                assert(!(b[n] == ':' && b[n + 1] == ' '));
            }
            assert(false);
        }
        if b.len() < a.len() {
            let n = b.len() as int;
            assert(y.len() > 0);
            assert(right[n] == y[0]);
            assert(left[n] == a[n]);
            if n + 1 < a.len() {
                assert(right[n + 1] == y[1]);
                assert(left[n + 1] == a[n + 1]);
                assert(!(a[n] == ':' && a[n + 1] == ' '));
            }
            assert(false);
        }
        assert(a =~= b) by {
            assert forall|j: int| 0 <= j < a.len() implies a[j] == b[j] by {
                assert(left[j] == a[j]);
                assert(right[j] == b[j]);
            }
        }
        assert(x =~= y) by {
            assert(x.len() == y.len());
            assert forall|j: int| 0 <= j < x.len() implies x[j] == y[j] by {
                assert(left[a.len() + j] == x[j]);
                assert(right[b.len() + j] == y[j]);
            }
        }
    } else {
        assert(!plain_ok(b));
        let quote = if all_printable(a) {
            Quote::Single
        } else {
            Quote::Double
        };
        assert(scalar_text(a) == quoted(quote, a));
        assert(scalar_text(b)[0] == mark(quote));
        assert(scalar_text(b) == quoted(quote, b));
        let m = mark(quote);
        let left_rest = quoted_body(quote, a) + seq![m] + x;
        let right_rest = quoted_body(quote, b) + seq![m] + y;
        assert(left =~= seq![m] + left_rest);
        assert(right =~= seq![m] + right_rest);
        assert(left_rest =~= right_rest) by {
            assert(left_rest.len() == right_rest.len());
            assert forall|j: int| 0 <= j < left_rest.len() implies left_rest[j] == right_rest[j] by {
                assert(left[1 + j] == left_rest[j]);
                assert(right[1 + j] == right_rest[j]);
            }
        }
        lemma_quoted_unique(quote, a, x, b, y);
    }
}

/// Two tokens that give the same line are the same token.
pub proof fn lemma_token_unique(a: TokenView, b: TokenView)
    requires
        token_text(a) == token_text(b),
    ensures
        a == b,
{
    lemma_token_head(a);
    lemma_token_head(b);
    let line = token_text(a);
    reveal_strlit(": ");
    reveal_strlit(":");
    match a {
        TokenView::Version(n) => {
            assert(b is Version);
            lemma_numeral(n);
            lemma_numeral(b->Version_0);
        },
        TokenView::Binaries => {
            assert(b is Binaries);
        },
        TokenView::Packages => {
            assert(b is Packages);
        },
        TokenView::Dependencies => {
            assert(b is Dependencies);
        },
        TokenView::PeerDependencies => {
            assert(b is PeerDependencies);
        },
        TokenView::DevDependencies => {
            assert(b is DevDependencies);
        },
        TokenView::Resolved(s) => {
            assert(b is Resolved);
            let t = b->Resolved_0;
            assert(scalar_text(s) + Seq::<char>::empty() =~= scalar_text(s));
            assert(scalar_text(t) + Seq::<char>::empty() =~= scalar_text(t));
            lemma_scalar_unique(s, Seq::empty(), t, Seq::empty());
        },
        TokenView::Sha512(s) => {
            assert(b is Sha512);
            let t = b->Sha512_0;
            assert(scalar_text(s) + Seq::<char>::empty() =~= scalar_text(s));
            assert(scalar_text(t) + Seq::<char>::empty() =~= scalar_text(t));
            lemma_scalar_unique(s, Seq::empty(), t, Seq::empty());
        },
        TokenView::Item(s) => {
            assert(b is Item);
            let t = b->Item_0;
            assert(scalar_text(s) + Seq::<char>::empty() =~= scalar_text(s));
            assert(scalar_text(t) + Seq::<char>::empty() =~= scalar_text(t));
            lemma_scalar_unique(s, Seq::empty(), t, Seq::empty());
        },
        TokenView::Binary(_, _) | TokenView::PackageKey(_) => {
            assert(b is Binary || b is PackageKey);
            assert(follows_key(after_key(a)));
            assert(follows_key(after_key(b)));
            lemma_scalar_unique(key_of(a), after_key(a), key_of(b), after_key(b));
            assert(after_key(a).len() == 1 <==> a is PackageKey);
            assert(after_key(b).len() == 1 <==> b is PackageKey);
            if a is Binary {
                let s = value_of(a);
                let t = value_of(b);
                lemma_cancel(": "@, scalar_text(s), scalar_text(t));
                assert(scalar_text(s) + Seq::<char>::empty() =~= scalar_text(s));
                assert(scalar_text(t) + Seq::<char>::empty() =~= scalar_text(t));
                lemma_scalar_unique(s, Seq::empty(), t, Seq::empty());
            }
        },
    }
}

/// Two lists of tokens that give the same lines are the same list.
pub proof fn lemma_token_lines_unique(a: Seq<TokenView>, b: Seq<TokenView>)
    requires
        token_lines(a) == token_lines(b),
    ensures
        a == b,
{
    assert(a.len() == token_lines(a).len());
    assert(b.len() == token_lines(b).len());
    assert(a =~= b) by {
        assert forall|i: int| 0 <= i < a.len() implies a[i] == b[i] by {
            assert(token_lines(a)[i] == token_text(a[i]));
            assert(token_lines(b)[i] == token_text(b[i]));
            lemma_token_unique(a[i], b[i]);
        }
    }
}

/// What follows the same tokens is the same.
proof fn lemma_cancel_tokens(start: Seq<TokenView>, x: Seq<TokenView>, y: Seq<TokenView>)
    requires
        start + x == start + y,
    ensures
        x == y,
{
    assert((start + x).len() == start.len() + x.len());
    assert((start + y).len() == start.len() + y.len());
    assert(x =~= y) by {
        assert forall|j: int| 0 <= j < x.len() implies x[j] == y[j] by {
            assert((start + x)[start.len() + j] == x[j]);
            assert((start + y)[start.len() + j] == y[j]);
        }
    }
}

/// What may follow a set: nothing, or a token that is neither the set's
/// heading nor a name.
pub open spec fn after_set(heading: TokenView, rest: Seq<TokenView>) -> bool {
    rest.len() == 0 || (rest[0] != heading && !(rest[0] is Item))
}

/// Two sets under the same heading that are written alike are the same.
proof fn lemma_set_unique(
    heading: TokenView,
    a: Seq<Seq<char>>,
    x: Seq<TokenView>,
    b: Seq<Seq<char>>,
    y: Seq<TokenView>,
)
    requires
        set_tokens(heading, a) + x == set_tokens(heading, b) + y,
        after_set(heading, x),
        after_set(heading, y),
    ensures
        a == b,
        x == y,
{
    let left = set_tokens(heading, a) + x;
    let right = set_tokens(heading, b) + y;
    let sa = set_tokens(heading, a);
    let sb = set_tokens(heading, b);
    assert(left.len() == sa.len() + x.len());
    assert(right.len() == sb.len() + y.len());
    if a.len() == 0 && b.len() == 0 {
        assert(a =~= b);
        assert(left =~= x);
        assert(right =~= y);
    } else if a.len() == 0 {
        assert(left =~= x);
        assert(right[0] == sb[0]);
        assert(false);
    } else if b.len() == 0 {
        assert(right =~= y);
        assert(left[0] == sa[0]);
        assert(false);
    } else {
        if a.len() < b.len() {
            let at = 1 + a.len() as int;
            assert(right[at] == sb[at]);
            assert(left[at] == x[0]);
            assert(false);
        }
        if b.len() < a.len() {
            let at = 1 + b.len() as int;
            assert(left[at] == sa[at]);
            assert(right[at] == y[0]);
            assert(false);
        }
        assert(a =~= b) by {
            assert forall|j: int| 0 <= j < a.len() implies a[j] == b[j] by {
                assert(left[1 + j] == sa[1 + j]);
                assert(right[1 + j] == sb[1 + j]);
            }
        }
        lemma_cancel_tokens(sa, x, y);
    }
}

/// What may follow a package: nothing, or the key of a further package.
pub open spec fn after_package(rest: Seq<TokenView>) -> bool {
    rest.len() == 0 || rest[0] is PackageKey
}

/// A set and what follows it start with the set's heading or like what
/// follows.
proof fn lemma_set_start(heading: TokenView, names: Seq<Seq<char>>, rest: Seq<TokenView>)
    ensures
        (set_tokens(heading, names) + rest).len() == 0 <==> names.len() == 0 && rest.len() == 0,
        (set_tokens(heading, names) + rest).len() > 0 ==> (set_tokens(heading, names) + rest)[0]
            == if names.len() > 0 {
            heading
        } else {
            rest[0]
        },
{
    let written = set_tokens(heading, names);
    if names.len() > 0 {
        assert((written + rest)[0] == written[0]);
    } else {
        assert(written + rest =~= rest);
    }
}

/// Two packages that are written alike are the same package.
proof fn lemma_package_unique(
    a: (Seq<char>, PackageView),
    x: Seq<TokenView>,
    b: (Seq<char>, PackageView),
    y: Seq<TokenView>,
)
    requires
        package_tokens(a) + x == package_tokens(b) + y,
        after_package(x),
        after_package(y),
    ensures
        a == b,
        x == y,
{
    let head_a = seq![
        TokenView::PackageKey(a.0),
        TokenView::Resolved(a.1.resolved),
        TokenView::Sha512(a.1.sha512),
    ];
    let head_b = seq![
        TokenView::PackageKey(b.0),
        TokenView::Resolved(b.1.resolved),
        TokenView::Sha512(b.1.sha512),
    ];
    let da = set_tokens(TokenView::Dependencies, a.1.dependencies);
    let db = set_tokens(TokenView::Dependencies, b.1.dependencies);
    let pa = set_tokens(TokenView::PeerDependencies, a.1.peer_dependencies);
    let pb = set_tokens(TokenView::PeerDependencies, b.1.peer_dependencies);
    let va = set_tokens(TokenView::DevDependencies, a.1.dev_dependencies);
    let vb = set_tokens(TokenView::DevDependencies, b.1.dev_dependencies);
    let left = package_tokens(a) + x;
    let right = package_tokens(b) + y;
    assert(left =~= head_a + (da + (pa + (va + x))));
    assert(right =~= head_b + (db + (pb + (vb + y))));
    assert(left[0] == head_a[0] && left[1] == head_a[1] && left[2] == head_a[2]);
    assert(right[0] == head_b[0] && right[1] == head_b[1] && right[2] == head_b[2]);
    assert(head_a =~= head_b);
    lemma_cancel_tokens(head_a, da + (pa + (va + x)), db + (pb + (vb + y)));
    lemma_set_start(TokenView::DevDependencies, a.1.dev_dependencies, x);
    lemma_set_start(TokenView::DevDependencies, b.1.dev_dependencies, y);
    lemma_set_start(TokenView::PeerDependencies, a.1.peer_dependencies, va + x);
    lemma_set_start(TokenView::PeerDependencies, b.1.peer_dependencies, vb + y);
    lemma_set_unique(
        TokenView::Dependencies,
        a.1.dependencies,
        pa + (va + x),
        b.1.dependencies,
        pb + (vb + y),
    );
    lemma_set_unique(
        TokenView::PeerDependencies,
        a.1.peer_dependencies,
        va + x,
        b.1.peer_dependencies,
        vb + y,
    );
    lemma_set_unique(TokenView::DevDependencies, a.1.dev_dependencies, x, b.1.dev_dependencies, y);
}

/// The tokens of packages start with those of the first package.
proof fn lemma_packages_front(packages: Seq<(Seq<char>, PackageView)>)
    requires
        packages.len() > 0,
    ensures
        packages_tokens(packages) == package_tokens(packages[0]) + packages_tokens(
            packages.drop_first(),
        ),
        after_package(packages_tokens(packages.drop_first())),
        packages_tokens(packages).len() >= 3,
        packages_tokens(packages)[0] is PackageKey,
    decreases packages.len(),
{
    let first = package_tokens(packages[0]);
    assert(first[0] is PackageKey);
    if packages.len() == 1 {
        assert(packages.drop_last() =~= Seq::<(Seq<char>, PackageView)>::empty());
        assert(packages.drop_first() =~= Seq::<(Seq<char>, PackageView)>::empty());
        assert(packages_tokens(packages.drop_last()) =~= Seq::<TokenView>::empty());
        assert(packages_tokens(packages.drop_first()) =~= Seq::<TokenView>::empty());
        assert(packages_tokens(packages) =~= first);
        assert(first + packages_tokens(packages.drop_first()) =~= first);
    } else {
        lemma_packages_front(packages.drop_last());
        assert(packages.drop_first().drop_last() =~= packages.drop_last().drop_first());
        assert(packages.drop_first().last() == packages.last());
        assert(packages.drop_last()[0] == packages[0]);
        let middle = packages_tokens(packages.drop_last().drop_first());
        let last = package_tokens(packages.last());
        assert(packages_tokens(packages.drop_first()) == middle + last);
        assert(packages_tokens(packages) =~= first + packages_tokens(packages.drop_first()));
        assert(last[0] is PackageKey);
        if middle.len() == 0 {
            assert((middle + last)[0] == last[0]);
        } else {
            assert((middle + last)[0] == middle[0]);
        }
        assert(packages_tokens(packages)[0] == first[0]);
    }
}

/// Two lists of packages that are written alike are the same list.
proof fn lemma_packages_unique(
    a: Seq<(Seq<char>, PackageView)>,
    b: Seq<(Seq<char>, PackageView)>,
)
    requires
        packages_tokens(a) == packages_tokens(b),
    ensures
        a == b,
    decreases a.len(),
{
    if a.len() == 0 && b.len() == 0 {
        assert(a =~= b);
    } else if a.len() == 0 {
        lemma_packages_front(b);
    } else if b.len() == 0 {
        lemma_packages_front(a);
    } else {
        lemma_packages_front(a);
        lemma_packages_front(b);
        lemma_package_unique(
            a[0],
            packages_tokens(a.drop_first()),
            b[0],
            packages_tokens(b.drop_first()),
        );
        lemma_packages_unique(a.drop_first(), b.drop_first());
        assert(a =~= seq![a[0]] + a.drop_first());
        assert(b =~= seq![b[0]] + b.drop_first());
    }
}

/// Two lock files whose lines say the same are the same lock file.
pub proof fn lemma_lock_tokens_unique(a: LockView, b: LockView)
    requires
        lock_tokens(a) == lock_tokens(b),
    ensures
        a == b,
{
    let all = lock_tokens(a);
    let ba = binaries_section(a.binaries);
    let bb = binaries_section(b.binaries);
    let pa = packages_section(a.packages);
    let pb = packages_section(b.packages);
    let first_a = seq![TokenView::Version(a.lock_version)];
    let first_b = seq![TokenView::Version(b.lock_version)];
    assert(all =~= first_a + (ba + pa));
    assert(all =~= first_b + (bb + pb));
    assert(all[0] == first_a[0] && all[0] == first_b[0]);
    lemma_cancel_tokens(first_a, ba + pa, bb + pb);
    let rest = ba + pa;
    assert(rest.len() == ba.len() + pa.len());
    assert(rest.len() == bb.len() + pb.len());
    if a.packages.len() > 0 {
        lemma_packages_front(a.packages);
        assert(pa[0] == TokenView::Packages);
    }
    if b.packages.len() > 0 {
        lemma_packages_front(b.packages);
        assert(pb[0] == TokenView::Packages);
    }
    let na = a.binaries.len() as int;
    let nb = b.binaries.len() as int;
    if na > 0 {
        assert(rest[0] == ba[0]);
    } else if pa.len() > 0 {
        assert(rest[0] == pa[0]);
    }
    if nb > 0 {
        assert((bb + pb)[0] == bb[0]);
    } else if pb.len() > 0 {
        assert((bb + pb)[0] == pb[0]);
    }
    assert((na > 0) == (nb > 0));
    if na > 0 {
        if na < nb {
            assert((bb + pb)[1 + na] == bb[1 + na]);
            if pa.len() > 0 {
                assert(rest[1 + na] == pa[0]);
            }
            assert(false);
        }
        if nb < na {
            assert(rest[1 + nb] == ba[1 + nb]);
            if pb.len() > 0 {
                assert((bb + pb)[1 + nb] == pb[0]);
            }
            assert(false);
        }
        assert(a.binaries =~= b.binaries) by {
            assert forall|j: int| 0 <= j < na implies a.binaries[j] == b.binaries[j] by {
                assert(rest[1 + j] == ba[1 + j]);
                assert((bb + pb)[1 + j] == bb[1 + j]);
            }
        }
    } else {
        assert(a.binaries =~= b.binaries);
    }
    lemma_cancel_tokens(ba, pa, pb);
    if a.packages.len() > 0 {
        assert(pb.len() > 0);
        lemma_cancel_tokens(
            seq![TokenView::Packages],
            packages_tokens(a.packages),
            packages_tokens(b.packages),
        );
        lemma_packages_unique(a.packages, b.packages);
    } else {
        assert(pb.len() == 0);
        assert(a.packages =~= b.packages);
    }
}

} // verus!
