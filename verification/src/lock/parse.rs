//! Reading the text of a lock file.

use vstd::prelude::*;
use crate::lock::scalar::{follows_key, lemma_scalar_text, read_key, read_value, scalar_text};
use crate::lock::text::{
    binaries_section, join_lines, lemma_join_push, lock_tokens, package_tokens, packages_section,
    packages_tokens, set_tokens, token_text, TokenView,
};
use crate::lock::text::{lock_text, token_lines};
use crate::lock::{KirboLock, KirboLockPackage, LockError, LockView, NameSet, PackageView};
use crate::options::strings_view;
use crate::sorted::{keys, SortedMap};
use crate::text::{chars_of, find, free_of, lemma_numeral, numeral, parse_numeral};

verus! {

/// The characters of each line.
pub open spec fn lines_view(lines: Seq<Vec<char>>) -> Seq<Seq<char>> {
    Seq::new(lines.len(), |i: int| lines[i]@)
}

/// No line holds a line feed.
pub open spec fn single_lines(lines: Seq<Seq<char>>) -> bool {
    forall|i: int| 0 <= i < lines.len() ==> free_of(#[trigger] lines[i], '\n')
}

/// A text made of lines is empty or ends in a line feed.
pub proof fn lemma_join_ends(lines: Seq<Seq<char>>)
    ensures
        lines.len() == 0 <==> join_lines(lines).len() == 0,
        lines.len() > 0 ==> join_lines(lines).last() == '\n',
{
}

/// Two lists of lines without line feeds that make the same text are the
/// same list.
pub proof fn lemma_join_unique(a: Seq<Seq<char>>, b: Seq<Seq<char>>)
    requires
        single_lines(a),
        single_lines(b),
        join_lines(a) == join_lines(b),
    ensures
        a == b,
    decreases a.len(),
{
    lemma_join_ends(a);
    lemma_join_ends(b);
    if a.len() == 0 {
        assert(a =~= b);
    } else {
        let before_a = join_lines(a.drop_last());
        let before_b = join_lines(b.drop_last());
        let last_a = a.last();
        let last_b = b.last();
        let whole = join_lines(a);
        lemma_join_ends(a.drop_last());
        lemma_join_ends(b.drop_last());
        assert(whole == before_a + last_a + seq!['\n']);
        assert(whole == before_b + last_b + seq!['\n']);
        assert(before_a.len() + last_a.len() == before_b.len() + last_b.len());
        if last_a.len() < last_b.len() {
            let at = before_a.len() - 1;
            assert(before_a.len() > 0);
            assert(whole[at] == before_a[at]);
            assert(whole[at] == last_b[at - before_b.len()]);
            assert(false);
        }
        if last_b.len() < last_a.len() {
            let at = before_b.len() - 1;
            assert(before_b.len() > 0);
            assert(whole[at] == before_b[at]);
            assert(whole[at] == last_a[at - before_a.len()]);
            assert(false);
        }
        assert(last_a =~= last_b) by {
            assert forall|j: int| 0 <= j < last_a.len() implies last_a[j] == last_b[j] by {
                assert(whole[before_a.len() + j] == last_a[j]);
                assert(whole[before_b.len() + j] == last_b[j]);
            }
        }
        assert(before_a =~= before_b) by {
            assert forall|j: int| 0 <= j < before_a.len() implies before_a[j] == before_b[j] by {
                assert(whole[j] == before_a[j]);
                assert(whole[j] == before_b[j]);
            }
        }
        assert(single_lines(a.drop_last())) by {
            assert forall|i: int| 0 <= i < a.drop_last().len() implies free_of(
                #[trigger] a.drop_last()[i],
                '\n',
            ) by {
                assert(a.drop_last()[i] == a[i]);
            }
        }
        assert(single_lines(b.drop_last())) by {
            assert forall|i: int| 0 <= i < b.drop_last().len() implies free_of(
                #[trigger] b.drop_last()[i],
                '\n',
            ) by {
                assert(b.drop_last()[i] == b[i]);
            }
        }
        lemma_join_unique(a.drop_last(), b.drop_last());
        assert(a =~= a.drop_last().push(last_a));
        assert(b =~= b.drop_last().push(last_b));
    }
}

/// The lines of `chars`, where `chars` is made of lines.
pub fn split_lines(chars: &Vec<char>) -> (r: Option<Vec<Vec<char>>>)
    ensures
        match r {
            Some(lines) => join_lines(lines_view(lines@)) == chars@ && single_lines(
                lines_view(lines@),
            ),
            None => forall|lines: Seq<Seq<char>>| join_lines(lines) != chars@,
        },
{
    let n = chars.len();
    if n > 0 && chars[n - 1] != '\n' {
        proof {
            assert forall|lines: Seq<Seq<char>>| join_lines(lines) != chars@ by {
                lemma_join_ends(lines);
            }
        }
        return None;
    }
    let mut lines: Vec<Vec<char>> = Vec::new();
    let mut pos: usize = 0;
    assert(chars@.take(0) =~= join_lines(lines_view(lines@)));
    while pos < n
        invariant
            pos <= n,
            n == chars.len(),
            n > 0 ==> chars@[n - 1] == '\n',
            join_lines(lines_view(lines@)) == chars@.take(pos as int),
            single_lines(lines_view(lines@)),
        decreases n - pos,
    {
        let end = find(chars, pos, n, '\n');
        proof {
            if end == n {
                assert(chars@.subrange(pos as int, n as int)[n - 1 - pos] == chars@[n - 1]);
            }
        }
        let mut line: Vec<char> = Vec::new();
        let mut k: usize = pos;
        while k < end
            invariant
                pos <= k <= end < n,
                n == chars.len(),
                line@ == chars@.subrange(pos as int, k as int),
            decreases end - k,
        {
            line.push(chars[k]);
            assert(line@ =~= chars@.subrange(pos as int, k + 1));
            k += 1;
        }
        let ghost before = lines_view(lines@);
        proof {
            assert forall|j: int| 0 <= j < line@.len() implies line@[j] != '\n' by {
                assert(chars@.subrange(pos as int, n as int)[j] == line@[j]);
            }
        }
        lines.push(line);
        proof {
            assert(lines_view(lines@) =~= before.push(line@));
            lemma_join_push(before, line@);
            assert(chars@.take(end + 1) =~= chars@.take(pos as int) + line@ + seq!['\n']);
        }
        pos = end + 1;
    }
    assert(chars@.take(n as int) =~= chars@);
    Some(lines)
}

/// What one line of a lock file says.
#[derive(Debug)]
pub enum Token {
    Version(usize),
    Binaries,
    Binary(String, String),
    Packages,
    PackageKey(String),
    Resolved(String),
    Sha512(String),
    Dependencies,
    PeerDependencies,
    DevDependencies,
    Item(String),
}

impl View for Token {
    type V = TokenView;

    open spec fn view(&self) -> TokenView {
        match self {
            Token::Version(version) => TokenView::Version(*version as nat),
            Token::Binaries => TokenView::Binaries,
            Token::Binary(name, target) => TokenView::Binary(name@, target@),
            Token::Packages => TokenView::Packages,
            Token::PackageKey(key) => TokenView::PackageKey(key@),
            Token::Resolved(archive) => TokenView::Resolved(archive@),
            Token::Sha512(sum) => TokenView::Sha512(sum@),
            Token::Dependencies => TokenView::Dependencies,
            Token::PeerDependencies => TokenView::PeerDependencies,
            Token::DevDependencies => TokenView::DevDependencies,
            Token::Item(name) => TokenView::Item(name@),
        }
    }
}

/// Whether `line` starts with `word`.
fn starts_with(line: &Vec<char>, word: &str) -> (r: bool)
    ensures
        r == (word@.len() <= line@.len() && line@.take(word@.len() as int) == word@),
{
    let letters = chars_of(word);
    if letters.len() > line.len() {
        return false;
    }
    let mut i: usize = 0;
    while i < letters.len()
        invariant
            i <= letters.len() <= line.len(),
            letters@ == word@,
            forall|j: int| 0 <= j < i ==> line@[j] == letters@[j],
        decreases letters.len() - i,
    {
        if line[i] != letters[i] {
            assert(line@.take(word@.len() as int)[i as int] != word@[i as int]);
            return false;
        }
        i += 1;
    }
    assert(line@.take(word@.len() as int) =~= word@);
    true
}

/// Whether `line` is `word`.
fn is_exactly(line: &Vec<char>, word: &str) -> (r: bool)
    ensures
        r == (line@ == word@),
{
    let starts = starts_with(line, word);
    let same_length = line.len() == word.unicode_len();
    proof {
        if same_length {
            assert(line@.take(word@.len() as int) =~= line@);
        }
    }
    starts && same_length
}

/// The string that `token` carries where it is read as a value.
pub open spec fn value_of(token: TokenView) -> Seq<char> {
    match token {
        TokenView::Binary(_, target) => target,
        TokenView::Resolved(archive) => archive,
        TokenView::Sha512(sum) => sum,
        TokenView::Item(name) => name,
        _ => Seq::empty(),
    }
}

/// The key that `token` carries.
pub open spec fn key_of(token: TokenView) -> Seq<char> {
    match token {
        TokenView::Binary(name, _) => name,
        TokenView::PackageKey(key) => key,
        _ => Seq::empty(),
    }
}

/// What follows the key in the line of `token`.
pub open spec fn after_key(token: TokenView) -> Seq<char> {
    match token {
        TokenView::Binary(_, target) => ": "@ + scalar_text(target),
        _ => ":"@,
    }
}

/// `token` can be held: a layout version fits its type.
pub open spec fn fits(token: TokenView) -> bool {
    token matches TokenView::Version(version) ==> version <= usize::MAX
}

/// A line that starts with a word has the characters of the word.
proof fn lemma_starts_with(line: Seq<char>, word: Seq<char>)
    requires
        word.len() <= line.len(),
        line.take(word.len() as int) == word,
    ensures
        forall|j: int| 0 <= j < word.len() ==> line[j] == word[j],
{
    assert forall|j: int| 0 <= j < word.len() implies line[j] == word[j] by {
        assert(line.take(word.len() as int)[j] == line[j]);
    }
}

/// How the line of each token begins.
pub proof fn lemma_token_head(token: TokenView)
    ensures
        ({
            let line = token_text(token);
            match token {
                TokenView::Version(version) => line.len() > 13 && line[0] == 'l' && line.take(13)
                    == "lockVersion: "@ && line.skip(13) == numeral(version),
                TokenView::Binaries => line.len() == 9 && line[0] == 'b',
                TokenView::Packages => line.len() == 9 && line[0] == 'p',
                TokenView::Binary(name, target) => line.len() > 5 && line[0] == ' ' && line[1]
                    == ' ' && line[2] != ' ' && line.skip(2) == scalar_text(name) + after_key(
                    token,
                ),
                TokenView::PackageKey(key) => line.len() > 3 && line[0] == ' ' && line[1] == ' '
                    && line[2] != ' ' && line.skip(2) == scalar_text(key) + after_key(token),
                TokenView::Resolved(archive) => line.len() > 14 && line[0] == ' ' && line[1]
                    == ' ' && line[2] == ' ' && line[3] == ' ' && line[4] == 'r' && line.take(14)
                    == "    resolved: "@ && line.skip(14) == scalar_text(archive),
                TokenView::Sha512(sum) => line.len() > 12 && line[0] == ' ' && line[1] == ' '
                    && line[2] == ' ' && line[3] == ' ' && line[4] == 's' && line.take(12)
                    == "    sha512: "@ && line.skip(12) == scalar_text(sum),
                TokenView::Dependencies => line.len() == 17 && line[0] == ' ' && line[2] == ' '
                    && line[4] == 'd' && line[5] == 'e' && line[6] == 'p',
                TokenView::PeerDependencies => line.len() == 21 && line[0] == ' ' && line[2]
                    == ' ' && line[4] == 'p',
                TokenView::DevDependencies => line.len() == 20 && line[0] == ' ' && line[2] == ' '
                    && line[4] == 'd' && line[5] == 'e' && line[6] == 'v',
                TokenView::Item(name) => line.len() > 6 && line[0] == ' ' && line[1] == ' '
                    && line[2] == ' ' && line[3] == ' ' && line[4] == '-' && line.take(6)
                    == "    - "@ && line.skip(6) == scalar_text(name),
            }
        }),
{
    reveal_strlit("lockVersion: ");
    reveal_strlit("binaries:");
    reveal_strlit("packages:");
    reveal_strlit("  ");
    reveal_strlit(": ");
    reveal_strlit(":");
    reveal_strlit("    resolved: ");
    reveal_strlit("    sha512: ");
    reveal_strlit("    dependencies:");
    reveal_strlit("    peerDependencies:");
    reveal_strlit("    devDependencies:");
    reveal_strlit("    - ");
    lemma_scalar_text(value_of(token));
    lemma_scalar_text(key_of(token));
    let line = token_text(token);
    match token {
        TokenView::Version(version) => {
            lemma_numeral(version);
            assert(line.take(13) =~= "lockVersion: "@);
            assert(line.skip(13) =~= numeral(version));
        },
        TokenView::Binary(name, target) => {
            assert(line[2] == scalar_text(name)[0]);
            assert(line.skip(2) =~= scalar_text(name) + after_key(token));
        },
        TokenView::PackageKey(key) => {
            assert(line[2] == scalar_text(key)[0]);
            assert(line.skip(2) =~= scalar_text(key) + after_key(token));
        },
        TokenView::Resolved(archive) => {
            assert(line.take(14) =~= "    resolved: "@);
            assert(line.skip(14) =~= scalar_text(archive));
        },
        TokenView::Sha512(sum) => {
            assert(line.take(12) =~= "    sha512: "@);
            assert(line.skip(12) =~= scalar_text(sum));
        },
        TokenView::Item(name) => {
            assert(line.take(6) =~= "    - "@);
            assert(line.skip(6) =~= scalar_text(name));
        },
        _ => {},
    }
}

/// What `line` says.
///
/// Where `line` is the line that says `token`, the result is `token`.
pub(crate) fn tokenize(line: &Vec<char>, Ghost(token): Ghost<TokenView>) -> (r: Option<Token>)
    ensures
        line@ == token_text(token) && fits(token) ==> (r matches Some(found) && found@ == token),
{
    let ghost given = line@ == token_text(token) && fits(token);
    let n = line.len();
    proof {
        reveal_strlit("lockVersion: ");
        reveal_strlit("binaries:");
        reveal_strlit("packages:");
        reveal_strlit("  ");
        reveal_strlit(": ");
        reveal_strlit(":");
        reveal_strlit("    resolved: ");
        reveal_strlit("    sha512: ");
        reveal_strlit("    dependencies:");
        reveal_strlit("    peerDependencies:");
        reveal_strlit("    devDependencies:");
        reveal_strlit("    - ");
        lemma_token_head(token);
        if let TokenView::Version(version) = token {
            lemma_numeral(version);
        }
    }
    proof {
        if given {
            if token is Binaries || token is Packages || token is Dependencies
                || token is PeerDependencies || token is DevDependencies {
            } else {
                assert(line@ != "binaries:"@);
                assert(line@ != "packages:"@);
                assert(line@ != "    dependencies:"@);
                assert(line@ != "    peerDependencies:"@);
                assert(line@ != "    devDependencies:"@);
            }
        }
    }
    if is_exactly(line, "binaries:") {
        return Some(Token::Binaries);
    }
    if is_exactly(line, "packages:") {
        return Some(Token::Packages);
    }
    if is_exactly(line, "    dependencies:") {
        return Some(Token::Dependencies);
    }
    if is_exactly(line, "    peerDependencies:") {
        return Some(Token::PeerDependencies);
    }
    if is_exactly(line, "    devDependencies:") {
        return Some(Token::DevDependencies);
    }
    if starts_with(line, "lockVersion: ") {
        proof {
            if given {
                lemma_starts_with(line@, "lockVersion: "@);
                assert(line@[0] == 'l');
                assert(token is Version);
                assert(line@.subrange(13, n as int) =~= line@.skip(13));
            }
        }
        return match parse_numeral(line, 13, n) {
            Some(version) => {
                if version <= usize::MAX as u64 {
                    Some(Token::Version(version as usize))
                } else {
                    None
                }
            },
            None => None,
        };
    }
    if starts_with(line, "    - ") {
        proof {
            if given {
                lemma_starts_with(line@, "    - "@);
                assert(line@[0] == ' ' && line@[2] == ' ' && line@[4] == '-');
                assert(token is Item);
                assert(line@.skip(6) =~= scalar_text(value_of(token)) + Seq::<char>::empty());
            }
        }
        return match read_value(line, 6, Ghost(value_of(token))) {
            Some(name) => Some(Token::Item(name)),
            None => None,
        };
    }
    if starts_with(line, "    resolved: ") {
        proof {
            if given {
                lemma_starts_with(line@, "    resolved: "@);
                assert(line@[0] == ' ' && line@[2] == ' ' && line@[4] == 'r');
                assert(token is Resolved);
                assert(line@.skip(14) =~= scalar_text(value_of(token)) + Seq::<char>::empty());
            }
        }
        return match read_value(line, 14, Ghost(value_of(token))) {
            Some(archive) => Some(Token::Resolved(archive)),
            None => None,
        };
    }
    if starts_with(line, "    sha512: ") {
        proof {
            if given {
                lemma_starts_with(line@, "    sha512: "@);
                assert(line@[0] == ' ' && line@[2] == ' ' && line@[4] == 's');
                assert(token is Sha512);
                assert(line@.skip(12) =~= scalar_text(value_of(token)) + Seq::<char>::empty());
            }
        }
        return match read_value(line, 12, Ghost(value_of(token))) {
            Some(sum) => Some(Token::Sha512(sum)),
            None => None,
        };
    }
    proof {
        if given && (token is Binary || token is PackageKey) {
            assert(line@.take(2) =~= "  "@);
        }
    }
    if starts_with(line, "  ") {
        let ghost key = key_of(token);
        let ghost tail = after_key(token);
        proof {
            if given {
                lemma_starts_with(line@, "  "@);
                assert(line@[0] == ' ' && line@[1] == ' ');
                assert(!(token is Version) && !(token is Binaries) && !(token is Packages));
                assert(!(token is Dependencies) && !(token is PeerDependencies) && !(token is DevDependencies));
                if token is Item {
                    assert(line@.take(6) == "    - "@);
                }
                if token is Resolved {
                    assert(line@.take(14) == "    resolved: "@);
                }
                if token is Sha512 {
                    assert(line@.take(12) == "    sha512: "@);
                }
                assert(token is Binary || token is PackageKey);
                assert(line@.skip(2) =~= scalar_text(key) + tail);
                assert(follows_key(tail));
            }
        }
        let (key, end) = match read_key(line, 2, Ghost(key), Ghost(tail)) {
            Some(found) => found,
            None => {
                return None;
            },
        };
        proof {
            if given {
                let written = scalar_text(key_of(token)).len() as int;
                assert(line@.skip(2)[written] == tail[0]);
                assert(line@.len() == 2 + written + tail.len());
                if token is Binary {
                    assert(line@.skip(2)[written + 1] == tail[1]);
                }
            }
        }
        if end < n && line[end] == ':' {
            if end + 1 == n {
                return Some(Token::PackageKey(key));
            }
            if line[end + 1] == ' ' {
                proof {
                    if given {
                        assert(line@.skip(end + 2) =~= scalar_text(value_of(token)) + Seq::<
                            char,
                        >::empty());
                    }
                }
                return match read_value(line, end + 2, Ghost(value_of(token))) {
                    Some(target) => Some(Token::Binary(key, target)),
                    None => None,
                };
            }
        }
    }
    None
}

/// What each token says.
pub open spec fn tokens_view(tokens: Seq<Token>) -> Seq<TokenView> {
    Seq::new(tokens.len(), |i: int| tokens[i]@)
}

/// The three sets of names that a package has.
#[derive(Clone, Copy, Debug, PartialEq, Eq, Structural)]
pub enum SetKind {
    Dependencies,
    PeerDependencies,
    DevDependencies,
}

/// The heading of each set.
pub open spec fn heading(kind: SetKind) -> TokenView {
    match kind {
        SetKind::Dependencies => TokenView::Dependencies,
        SetKind::PeerDependencies => TokenView::PeerDependencies,
        SetKind::DevDependencies => TokenView::DevDependencies,
    }
}

/// At `i`, `tokens` hold the set `names` under `head`, and what follows is
/// neither that heading nor a further name.
pub open spec fn holds_set(tokens: Seq<TokenView>, i: int, head: TokenView, names: Seq<Seq<char>>) -> bool {
    let written = set_tokens(head, names);
    &&& 0 <= i
    &&& i + written.len() <= tokens.len()
    &&& tokens.subrange(i, i + written.len()) == written
    &&& i + written.len() < tokens.len() ==> tokens[i + written.len()] != head && !(tokens[i
        + written.len()] is Item)
}

fn is_heading(token: &Token, kind: SetKind) -> (r: bool)
    ensures
        r == (token@ == heading(kind)),
{
    match (token, kind) {
        (Token::Dependencies, SetKind::Dependencies) => true,
        (Token::PeerDependencies, SetKind::PeerDependencies) => true,
        (Token::DevDependencies, SetKind::DevDependencies) => true,
        _ => false,
    }
}

/// Reads the set of names under the heading of `kind` at `i`, if that
/// heading stands there.
fn read_set(tokens: &Vec<Token>, i: usize, kind: SetKind, Ghost(names): Ghost<Seq<Seq<char>>>) -> (r:
    (Vec<String>, usize))
    requires
        i <= tokens.len(),
    ensures
        i <= r.1 <= tokens.len(),
        holds_set(tokens_view(tokens@), i as int, heading(kind), names) ==> strings_view(r.0@)
            == names && r.1 == i + set_tokens(heading(kind), names).len(),
{
    let ghost all = tokens_view(tokens@);
    let ghost given = holds_set(all, i as int, heading(kind), names);
    let ghost written = set_tokens(heading(kind), names);
    let mut found: Vec<String> = Vec::new();
    proof {
        if given {
            if names.len() > 0 {
                assert(all.subrange(i as int, i + written.len())[0] == written[0]);
            }
        }
    }
    if i >= tokens.len() || !is_heading(&tokens[i], kind) {
        proof {
            if given {
                assert(strings_view(found@) =~= names);
            }
        }
        return (found, i);
    }
    let mut j: usize = i + 1;
    loop
        invariant
            i < j <= tokens.len(),
            all == tokens_view(tokens@),
            given == holds_set(all, i as int, heading(kind), names),
            written == set_tokens(heading(kind), names),
            all[i as int] == heading(kind),
            given ==> names.len() > 0 && j == i + 1 + found@.len() && found@.len() <= names.len()
                && strings_view(found@) == names.take(found@.len() as int),
        decreases tokens.len() - j,
    {
        proof {
            if given {
                let c = found@.len() as int;
                if c < names.len() {
                    assert(all.subrange(i as int, i + written.len())[1 + c] == written[1 + c]);
                    assert(all[j as int] == TokenView::Item(names[c]));
                } else {
                    assert(names.take(c) =~= names);
                }
            }
        }
        if j >= tokens.len() {
            return (found, j);
        }
        match &tokens[j] {
            Token::Item(name) => {
                let ghost before = strings_view(found@);
                found.push(name.clone());
                proof {
                    if given {
                        let c = found@.len() as int;
                        assert(strings_view(found@) =~= before.push(name@));
                        assert(names.take(c) =~= names.take(c - 1).push(names[c - 1]));
                    }
                }
                j += 1;
            },
            _ => {
                return (found, j);
            },
        }
    }
}

/// At `i`, `tokens` hold the lines of the package `entry`, and what
/// follows is the key of a further package.
pub open spec fn holds_package(tokens: Seq<TokenView>, i: int, entry: (Seq<char>, PackageView)) -> bool {
    let written = package_tokens(entry);
    &&& 0 <= i
    &&& i + written.len() <= tokens.len()
    &&& tokens.subrange(i, i + written.len()) == written
    &&& i + written.len() < tokens.len() ==> tokens[i + written.len()] is PackageKey
}

/// Reads the package whose key stands at `i`.
fn read_package(tokens: &Vec<Token>, i: usize, Ghost(entry): Ghost<(Seq<char>, PackageView)>) -> (r:
    Option<(String, KirboLockPackage, usize)>)
    requires
        i < tokens.len(),
    ensures
        r matches Some(found) ==> found.1.wf() && i < found.2 <= tokens.len(),
        holds_package(tokens_view(tokens@), i as int, entry) && entry.1.wf() ==> (r matches Some(
            found,
        ) && found.0@ == entry.0 && found.1@ == entry.1 && found.2 == i + package_tokens(
            entry,
        ).len()),
{
    let ghost all = tokens_view(tokens@);
    let ghost given = holds_package(all, i as int, entry) && entry.1.wf();
    let ghost written = package_tokens(entry);
    let ghost a = set_tokens(TokenView::Dependencies, entry.1.dependencies);
    let ghost b = set_tokens(TokenView::PeerDependencies, entry.1.peer_dependencies);
    let ghost c = set_tokens(TokenView::DevDependencies, entry.1.dev_dependencies);
    proof {
        if given {
            let na = a.len() as int;
            let nb = b.len() as int;
            let nc = c.len() as int;
            assert(written.len() == 3 + na + nb + nc);
            assert forall|x: int| 0 <= x < written.len() implies all[i + x] == written[x] by {
                assert(all.subrange(i as int, i + written.len())[x] == written[x]);
            }
            assert(all[i + 0] == written[0]);
            assert(all[i + 1] == written[1]);
            assert(all[i + 2] == written[2]);
            assert(all.subrange(i + 3, i + 3 + na) =~= a) by {
                assert forall|x: int| 0 <= x < na implies all[i + 3 + x] == a[x] by {
                    assert(all[i + (3 + x)] == written[3 + x]);
                }
            }
            assert(all.subrange(i + 3 + na, i + 3 + na + nb) =~= b) by {
                assert forall|x: int| 0 <= x < nb implies all[i + 3 + na + x] == b[x] by {
                    assert(all[i + (3 + na + x)] == written[3 + na + x]);
                }
            }
            assert(all.subrange(i + 3 + na + nb, i + written.len()) =~= c) by {
                assert forall|x: int| 0 <= x < nc implies all[i + 3 + na + nb + x] == c[x] by {
                    assert(all[i + (3 + na + nb + x)] == written[3 + na + nb + x]);
                }
            }
            if nb > 0 {
                assert(all[i + (3 + na)] == written[3 + na]);
                assert(written[3 + na] == b[0]);
            }
            if nc > 0 {
                assert(all[i + (3 + na + nb)] == written[3 + na + nb]);
                assert(written[3 + na + nb] == c[0]);
            }
        }
    }
    let key = match &tokens[i] {
        Token::PackageKey(key) => key.clone(),
        _ => {
            return None;
        },
    };
    if tokens.len() - i < 3 {
        return None;
    }
    let resolved = match &tokens[i + 1] {
        Token::Resolved(archive) => archive.clone(),
        _ => {
            return None;
        },
    };
    let sha512 = match &tokens[i + 2] {
        Token::Sha512(sum) => sum.clone(),
        _ => {
            return None;
        },
    };
    let (names, next) = read_set(tokens, i + 3, SetKind::Dependencies, Ghost(entry.1.dependencies));
    let dependencies = match NameSet::from_names(names) {
        Some(set) => set,
        None => {
            return None;
        },
    };
    let (names, next) = read_set(
        tokens,
        next,
        SetKind::PeerDependencies,
        Ghost(entry.1.peer_dependencies),
    );
    let peer_dependencies = match NameSet::from_names(names) {
        Some(set) => set,
        None => {
            return None;
        },
    };
    let (names, next) = read_set(
        tokens,
        next,
        SetKind::DevDependencies,
        Ghost(entry.1.dev_dependencies),
    );
    let dev_dependencies = match NameSet::from_names(names) {
        Some(set) => set,
        None => {
            return None;
        },
    };
    let package = KirboLockPackage::from_parts(
        resolved,
        sha512,
        dependencies,
        peer_dependencies,
        dev_dependencies,
    );
    Some((key, package, next))
}

/// How many tokens the first `m` packages take.
pub open spec fn packages_len(packages: Seq<(Seq<char>, PackageView)>, m: int) -> int {
    packages_tokens(packages.take(m)).len() as int
}

/// The tokens of the first `m` packages are the start of the tokens of all.
proof fn lemma_packages_prefix(packages: Seq<(Seq<char>, PackageView)>, m: int)
    requires
        0 <= m <= packages.len(),
    ensures
        packages_len(packages, m) <= packages_tokens(packages).len(),
        packages_tokens(packages.take(m)) == packages_tokens(packages).take(
            packages_len(packages, m),
        ),
    decreases packages.len() - m,
{
    let whole = packages_tokens(packages);
    if m == packages.len() {
        assert(packages.take(m) =~= packages);
        assert(whole.take(whole.len() as int) =~= whole);
    } else {
        lemma_packages_prefix(packages, m + 1);
        assert(packages.take(m + 1).drop_last() =~= packages.take(m));
        let longer = packages_tokens(packages.take(m + 1));
        let shorter = packages_tokens(packages.take(m));
        assert(longer == shorter + package_tokens(packages[m]));
        assert(shorter =~= longer.take(shorter.len() as int));
        assert(longer.take(shorter.len() as int) =~= whole.take(shorter.len() as int));
    }
}

/// The tokens of the package at `m` stand right after those of the
/// packages before it, and start with its key.
proof fn lemma_packages_step(packages: Seq<(Seq<char>, PackageView)>, m: int)
    requires
        0 <= m < packages.len(),
    ensures
        packages_len(packages, m + 1) == packages_len(packages, m) + package_tokens(
            packages[m],
        ).len(),
        packages_len(packages, m + 1) <= packages_tokens(packages).len(),
        packages_tokens(packages).subrange(
            packages_len(packages, m),
            packages_len(packages, m + 1),
        ) == package_tokens(packages[m]),
        package_tokens(packages[m]).len() >= 3,
        packages_tokens(packages)[packages_len(packages, m)] is PackageKey,
{
    lemma_packages_prefix(packages, m);
    lemma_packages_prefix(packages, m + 1);
    assert(packages.take(m + 1).drop_last() =~= packages.take(m));
    let whole = packages_tokens(packages);
    let longer = packages_tokens(packages.take(m + 1));
    let shorter = packages_tokens(packages.take(m));
    let one = package_tokens(packages[m]);
    assert(longer == shorter + one);
    let p = shorter.len() as int;
    let q = longer.len() as int;
    assert(longer == whole.take(q));
    assert(longer.subrange(p, q) =~= one);
    assert(whole.subrange(p, q) =~= whole.take(q).subrange(p, q));
    assert(whole.subrange(p, q)[0] == whole[p]);
    assert(one[0] is PackageKey);
}

fn is_binary(token: &Token) -> (r: bool)
    ensures
        r == (token@ is Binary),
{
    match token {
        Token::Binary(_, _) => true,
        _ => false,
    }
}

fn is_package_key(token: &Token) -> (r: bool)
    ensures
        r == (token@ is PackageKey),
{
    match token {
        Token::PackageKey(_) => true,
        _ => false,
    }
}

/// The lock file that `tokens` describe.
///
/// Where `tokens` are what the lines of the well-formed lock file `lock`
/// say, the result is that lock file.
pub(crate) fn read_lock(tokens: &Vec<Token>, Ghost(lock): Ghost<LockView>) -> (r: Option<KirboLock>)
    ensures
        r matches Some(found) ==> found.wf(),
        lock.wf() && tokens_view(tokens@) == lock_tokens(lock) ==> (r matches Some(found)
            && found@ == lock),
{
    let ghost all = tokens_view(tokens@);
    let ghost given = lock.wf() && all == lock_tokens(lock);
    let ghost bs = binaries_section(lock.binaries);
    let ghost ps = packages_section(lock.packages);
    let ghost pt = packages_tokens(lock.packages);
    let ghost count = lock.binaries.len() as int;
    let ghost many = lock.packages.len() as int;
    let ghost off = 1 + bs.len() as int;
    proof {
        if given {
            assert(all.len() == 1 + bs.len() + ps.len());
            assert(all[0] == TokenView::Version(lock.lock_version));
            assert forall|x: int| 0 <= x < bs.len() implies all[1 + x] == bs[x] by {}
            assert forall|x: int| 0 <= x < ps.len() implies all[off + x] == ps[x] by {}
            if count > 0 {
                assert(all[1] == bs[0]);
            }
            if many > 0 {
                assert(all[off + 0] == ps[0]);
            }
        }
    }
    let n = tokens.len();
    if n == 0 {
        return None;
    }
    let version = match &tokens[0] {
        Token::Version(version) => *version,
        _ => {
            return None;
        },
    };
    let mut i: usize = 1;
    let mut binaries: Vec<(String, String)> = Vec::new();
    if i < n && matches!(&tokens[i], Token::Binaries) {
        i += 1;
        while i < n && is_binary(&tokens[i])
            invariant
                1 < i <= n,
                n == tokens.len(),
                all == tokens_view(tokens@),
                bs == binaries_section(lock.binaries),
                count == lock.binaries.len(),
                given ==> all.len() == 1 + bs.len() + ps.len(),
                given ==> forall|x: int| 0 <= x < bs.len() ==> all[1 + x] == bs[x],
                given ==> ps.len() > 0 ==> all[1 + bs.len() as int] == TokenView::Packages,
                given ==> count > 0 && i == 2 + binaries@.len() && binaries@.len() <= count,
                given ==> crate::npm::pairs_view(binaries@) == lock.binaries.take(
                    binaries@.len() as int,
                ),
            decreases n - i,
        {
            let ghost c = binaries@.len() as int;
            let ghost before = crate::npm::pairs_view(binaries@);
            proof {
                if given {
                    if c < count {
                        assert(all[1 + (1 + c)] == bs[1 + c]);
                    }
                }
            }
            match &tokens[i] {
                Token::Binary(name, target) => {
                    binaries.push((name.clone(), target.clone()));
                },
                _ => {},
            }
            proof {
                if given {
                    assert(crate::npm::pairs_view(binaries@) =~= before.push(lock.binaries[c]));
                    assert(lock.binaries.take(c + 1) =~= lock.binaries.take(c).push(
                        lock.binaries[c],
                    ));
                }
            }
            i += 1;
        }
        proof {
            if given {
                let c = binaries@.len() as int;
                if c < count {
                    assert(all[1 + (1 + c)] == bs[1 + c]);
                }
                assert(lock.binaries.take(c) =~= lock.binaries);
            }
        }
    }
    proof {
        if given {
            assert(crate::npm::pairs_view(binaries@) =~= lock.binaries);
            assert(i == off);
        }
    }
    let mut packages: Vec<(String, KirboLockPackage)> = Vec::new();
    if i < n && matches!(&tokens[i], Token::Packages) {
        i += 1;
        proof {
            if given {
                assert(lock.packages.take(0) =~= Seq::<(Seq<char>, PackageView)>::empty());
            }
        }
        while i < n && is_package_key(&tokens[i])
            invariant
                1 < i <= n,
                n == tokens.len(),
                all == tokens_view(tokens@),
                pt == packages_tokens(lock.packages),
                many == lock.packages.len(),
                given == (lock.wf() && all == lock_tokens(lock)),
                forall|j: int| 0 <= j < packages@.len() ==> (#[trigger] packages@[j]).1.wf(),
                given ==> all.len() == off + 1 + pt.len(),
                given ==> forall|x: int| 0 <= x < pt.len() ==> all[off + 1 + x] == pt[x],
                given ==> many > 0 && packages@.len() <= many && i == off + 1 + packages_len(
                    lock.packages,
                    packages@.len() as int,
                ),
                given ==> forall|j: int|
                    0 <= j < packages@.len() ==> (#[trigger] packages@[j]).0@
                        == lock.packages[j].0 && packages@[j].1@ == lock.packages[j].1,
            decreases n - i,
        {
            let ghost m = packages@.len() as int;
            let ghost entry = if 0 <= m < many {
                lock.packages[m]
            } else {
                arbitrary()
            };
            proof {
                if given {
                    lemma_packages_prefix(lock.packages, m);
                    if m < many {
                        lemma_packages_step(lock.packages, m);
                        let written = package_tokens(entry);
                        let from = packages_len(lock.packages, m);
                        assert(all.subrange(i as int, i + written.len()) =~= written) by {
                            assert forall|x: int| 0 <= x < written.len() implies all[i + x]
                                == written[x] by {
                                assert(pt.subrange(from, from + written.len())[x] == pt[from + x]);
                                assert(all[off + 1 + (from + x)] == pt[from + x]);
                            }
                        }
                        if m + 1 < many {
                            lemma_packages_step(lock.packages, m + 1);
                            let next = packages_len(lock.packages, m + 1);
                            assert(all[off + 1 + next] == pt[next]);
                        } else {
                            lemma_packages_prefix(lock.packages, m + 1);
                            assert(lock.packages.take(m + 1) =~= lock.packages);
                        }
                        assert(holds_package(all, i as int, entry));
                        assert(entry.1.wf());
                    } else {
                        assert(lock.packages.take(m) =~= lock.packages);
                    }
                }
            }
            let (key, package, next) = match read_package(tokens, i, Ghost(entry)) {
                Some(found) => found,
                None => {
                    return None;
                },
            };
            packages.push((key, package));
            i = next;
        }
        proof {
            if given {
                let m = packages@.len() as int;
                lemma_packages_prefix(lock.packages, m);
                if m < many {
                    lemma_packages_step(lock.packages, m);
                    let from = packages_len(lock.packages, m);
                    assert(all[off + 1 + from] == pt[from]);
                } else {
                    assert(lock.packages.take(m) =~= lock.packages);
                }
            }
        }
    }
    if i != n {
        return None;
    }
    let binaries = match SortedMap::from_entries(binaries) {
        Some(map) => map,
        None => {
            proof {
                if given {
                    assert(crate::dict::names_of(binaries@) =~= keys(lock.binaries));
                }
            }
            return None;
        },
    };
    let packages = match SortedMap::from_entries(packages) {
        Some(map) => map,
        None => {
            proof {
                if given {
                    assert(crate::dict::names_of(packages@) =~= keys(lock.packages));
                }
            }
            return None;
        },
    };
    let found = KirboLock::from_parts(version, binaries, packages);
    proof {
        if given {
            assert(found@.binaries =~= lock.binaries);
            assert(found@.packages =~= lock.packages);
        }
    }
    Some(found)
}

/// No line of a lock file holds a line feed.
pub proof fn lemma_token_single_line(token: TokenView)
    ensures
        free_of(token_text(token), '\n'),
{
    reveal_strlit("lockVersion: ");
    reveal_strlit("binaries:");
    reveal_strlit("packages:");
    reveal_strlit("  ");
    reveal_strlit(": ");
    reveal_strlit(":");
    reveal_strlit("    resolved: ");
    reveal_strlit("    sha512: ");
    reveal_strlit("    dependencies:");
    reveal_strlit("    peerDependencies:");
    reveal_strlit("    devDependencies:");
    reveal_strlit("    - ");
    lemma_scalar_text(value_of(token));
    lemma_scalar_text(key_of(token));
    let line = token_text(token);
    match token {
        TokenView::Version(version) => {
            lemma_numeral(version);
            crate::text::lemma_numeral_free_of(version, '\n');
            assert forall|i: int| 0 <= i < line.len() implies line[i] != '\n' by {
                if i >= 13 {
                    assert(line[i] == numeral(version)[i - 13]);
                }
            }
        },
        TokenView::Binary(name, target) => {
            let a = scalar_text(name).len() as int;
            assert forall|i: int| 0 <= i < line.len() implies line[i] != '\n' by {
                if 2 <= i < 2 + a {
                    assert(line[i] == scalar_text(name)[i - 2]);
                } else if i >= 2 + a + 2 {
                    assert(line[i] == scalar_text(target)[i - 2 - a - 2]);
                }
            }
        },
        TokenView::PackageKey(key) => {
            let a = scalar_text(key).len() as int;
            assert forall|i: int| 0 <= i < line.len() implies line[i] != '\n' by {
                if 2 <= i < 2 + a {
                    assert(line[i] == scalar_text(key)[i - 2]);
                }
            }
        },
        TokenView::Resolved(archive) => {
            assert forall|i: int| 0 <= i < line.len() implies line[i] != '\n' by {
                if i >= 14 {
                    assert(line[i] == scalar_text(archive)[i - 14]);
                }
            }
        },
        TokenView::Sha512(sum) => {
            assert forall|i: int| 0 <= i < line.len() implies line[i] != '\n' by {
                if i >= 12 {
                    assert(line[i] == scalar_text(sum)[i - 12]);
                }
            }
        },
        TokenView::Item(name) => {
            assert forall|i: int| 0 <= i < line.len() implies line[i] != '\n' by {
                if i >= 6 {
                    assert(line[i] == scalar_text(name)[i - 6]);
                }
            }
        },
        _ => {},
    }
}

/// Among the lines of packages none gives a layout version.
proof fn lemma_packages_hold_no_version(packages: Seq<(Seq<char>, PackageView)>)
    ensures
        forall|x: int|
            0 <= x < packages_tokens(packages).len() ==> !(#[trigger] packages_tokens(
                packages,
            )[x] is Version),
    decreases packages.len(),
{
    if packages.len() > 0 {
        lemma_packages_hold_no_version(packages.drop_last());
    }
}

/// The only layout version among the lines of a lock file is its own.
proof fn lemma_tokens_fit(lock: LockView)
    requires
        lock.wf(),
    ensures
        forall|x: int| 0 <= x < lock_tokens(lock).len() ==> fits(#[trigger] lock_tokens(lock)[x]),
{
    lemma_packages_hold_no_version(lock.packages);
    let bs = binaries_section(lock.binaries);
    let ps = packages_section(lock.packages);
    let all = lock_tokens(lock);
    assert forall|x: int| 0 <= x < all.len() implies fits(#[trigger] all[x]) by {
        if x == 0 {
        } else if x < 1 + bs.len() {
            assert(all[x] == bs[x - 1]);
        } else {
            assert(all[x] == ps[x - 1 - bs.len()]);
            if x - 1 - bs.len() > 0 {
                assert(ps[x - 1 - bs.len()] == packages_tokens(lock.packages)[x - 2 - bs.len()]);
            }
        }
    }
}

impl KirboLock {
    /// Reads a lock file from its text.
    ///
    /// The text is accepted exactly where it is the text of a well-formed
    /// lock file, and the result is that lock file: reading what `serialize`
    /// wrote gives back what was written, field for field.
    pub fn deserialize(text: &str) -> (r: Result<KirboLock, LockError>)
        ensures
            match r {
                Ok(lock) => lock.wf() && lock_text(lock@) == text@,
                Err(error) => error == LockError::LockSerializationError && forall|
                    lock: LockView,
                | lock.wf() ==> lock_text(lock) != text@,
            },
            forall|written: LockView|
                written.wf() && lock_text(written) == text@ ==> (r matches Ok(lock) && lock@
                    == written),
    {
        let ghost witness = choose|lock: LockView| lock.wf() && lock_text(lock) == text@;
        let ghost given = witness.wf() && lock_text(witness) == text@;
        let ghost said = lock_tokens(witness);
        proof {
            if !given {
                assert forall|lock: LockView| lock.wf() implies lock_text(lock) != text@ by {}
            }
        }
        let chars = chars_of(text);
        let lines = match split_lines(&chars) {
            Some(lines) => lines,
            None => {
                return Err(LockError::LockSerializationError);
            },
        };
        proof {
            if given {
                assert(single_lines(token_lines(said))) by {
                    assert forall|i: int| 0 <= i < token_lines(said).len() implies free_of(
                        #[trigger] token_lines(said)[i],
                        '\n',
                    ) by {
                        lemma_token_single_line(said[i]);
                    }
                }
                lemma_join_unique(lines_view(lines@), token_lines(said));
                lemma_tokens_fit(witness);
            }
        }
        let mut tokens: Vec<Token> = Vec::new();
        let mut i: usize = 0;
        while i < lines.len()
            invariant
                i <= lines.len(),
                tokens@.len() == i,
                !given ==> forall|lock: LockView| lock.wf() ==> lock_text(lock) != text@,
                given ==> lines_view(lines@) == token_lines(said),
                given ==> forall|x: int| 0 <= x < said.len() ==> fits(#[trigger] said[x]),
                given ==> forall|x: int| 0 <= x < i ==> (#[trigger] tokens@[x])@ == said[x],
            decreases lines.len() - i,
        {
            let ghost token = if given {
                said[i as int]
            } else {
                arbitrary()
            };
            proof {
                if given {
                    assert(lines_view(lines@)[i as int] == token_lines(said)[i as int]);
                }
            }
            match tokenize(&lines[i], Ghost(token)) {
                Some(found) => {
                    tokens.push(found);
                },
                None => {
                    return Err(LockError::LockSerializationError);
                },
            }
            i += 1;
        }
        proof {
            if given {
                assert(lines_view(lines@).len() == token_lines(said).len());
                assert(tokens_view(tokens@) =~= said);
            }
        }
        let lock = match read_lock(&tokens, Ghost(witness)) {
            Some(lock) => lock,
            None => {
                return Err(LockError::LockSerializationError);
            },
        };
        let written = lock.serialize();
        if written.as_str().eq(text) {
            proof {
                assert forall|other: LockView|
                    other.wf() && lock_text(other) == text@ implies lock@ == other by {
                    crate::lock::laws::law_text_is_unique(lock@, other);
                }
            }
            Ok(lock)
        } else {
            Err(LockError::LockSerializationError)
        }
    }
}

} // verus!
