//! The text of a lock file.
//!
//! The text is a list of lines, each ended by a line feed. The first line
//! gives the layout version. Where there are binaries, a line `binaries:`
//! follows, and under it one line for each binary: two spaces, the name, a
//! colon, a space and the key of the package. Where there are packages, a
//! line `packages:` follows, and under it for each package a line with two
//! spaces, the key and a colon, then behind four spaces a line for the
//! archive and one for the checksum, and for each set of names that is not
//! empty its heading and one line for each name, behind four spaces, a dash
//! and a space. Maps and sets are written by ascending key, and a map or
//! set that is empty is left out.

use vstd::prelude::*;
use crate::lock::scalar::{push_scalar, scalar_text};
use crate::lock::{
    binaries_view, packages_view, KirboLock, KirboLockPackage, LockView, NameSet, PackageView,
};
use crate::text::{numeral, push_numeral};

verus! {

/// What one line of a lock file says.
pub ghost enum TokenView {
    /// The layout version.
    Version(nat),
    /// The heading of the binaries.
    Binaries,
    /// A binary and the key of its package.
    Binary(Seq<char>, Seq<char>),
    /// The heading of the packages.
    Packages,
    /// The key of a package.
    PackageKey(Seq<char>),
    /// The archive of the package.
    Resolved(Seq<char>),
    /// The checksum of the package.
    Sha512(Seq<char>),
    /// The heading of the package's dependencies.
    Dependencies,
    /// The heading of the package's peer dependencies.
    PeerDependencies,
    /// The heading of the package's development dependencies.
    DevDependencies,
    /// A name in the set whose heading came last.
    Item(Seq<char>),
}

/// The line that says `token`, without its line feed.
pub open spec fn token_text(token: TokenView) -> Seq<char> {
    match token {
        TokenView::Version(version) => "lockVersion: "@ + numeral(version),
        TokenView::Binaries => "binaries:"@,
        TokenView::Binary(name, target) => "  "@ + scalar_text(name) + ": "@ + scalar_text(target),
        TokenView::Packages => "packages:"@,
        TokenView::PackageKey(key) => "  "@ + scalar_text(key) + ":"@,
        TokenView::Resolved(archive) => "    resolved: "@ + scalar_text(archive),
        TokenView::Sha512(sum) => "    sha512: "@ + scalar_text(sum),
        TokenView::Dependencies => "    dependencies:"@,
        TokenView::PeerDependencies => "    peerDependencies:"@,
        TokenView::DevDependencies => "    devDependencies:"@,
        TokenView::Item(name) => "    - "@ + scalar_text(name),
    }
}

/// A heading and one item for each name, or nothing where there is no name.
pub open spec fn set_tokens(heading: TokenView, names: Seq<Seq<char>>) -> Seq<TokenView> {
    if names.len() == 0 {
        Seq::empty()
    } else {
        seq![heading] + Seq::new(names.len(), |i: int| TokenView::Item(names[i]))
    }
}

/// What the lines of one package say.
pub open spec fn package_tokens(entry: (Seq<char>, PackageView)) -> Seq<TokenView> {
    seq![
        TokenView::PackageKey(entry.0),
        TokenView::Resolved(entry.1.resolved),
        TokenView::Sha512(entry.1.sha512),
    ] + set_tokens(TokenView::Dependencies, entry.1.dependencies) + set_tokens(
        TokenView::PeerDependencies,
        entry.1.peer_dependencies,
    ) + set_tokens(TokenView::DevDependencies, entry.1.dev_dependencies)
}

/// What the lines of the given packages say, one package after the other.
pub open spec fn packages_tokens(packages: Seq<(Seq<char>, PackageView)>) -> Seq<TokenView>
    decreases packages.len(),
{
    if packages.len() == 0 {
        Seq::empty()
    } else {
        packages_tokens(packages.drop_last()) + package_tokens(packages.last())
    }
}

/// The heading of the binaries and one line for each, or nothing where
/// there is none.
pub open spec fn binaries_section(binaries: Seq<(Seq<char>, Seq<char>)>) -> Seq<TokenView> {
    if binaries.len() == 0 {
        Seq::empty()
    } else {
        seq![TokenView::Binaries] + Seq::new(
            binaries.len(),
            |i: int| TokenView::Binary(binaries[i].0, binaries[i].1),
        )
    }
}

/// The heading of the packages and the lines of each, or nothing where
/// there is none.
pub open spec fn packages_section(packages: Seq<(Seq<char>, PackageView)>) -> Seq<TokenView> {
    if packages.len() == 0 {
        Seq::empty()
    } else {
        seq![TokenView::Packages] + packages_tokens(packages)
    }
}

/// What the lines of a lock file say.
pub open spec fn lock_tokens(lock: LockView) -> Seq<TokenView> {
    seq![TokenView::Version(lock.lock_version)] + binaries_section(lock.binaries)
        + packages_section(lock.packages)
}

/// The lines that say `tokens`.
pub open spec fn token_lines(tokens: Seq<TokenView>) -> Seq<Seq<char>> {
    Seq::new(tokens.len(), |i: int| token_text(tokens[i]))
}

/// The lines one after the other, each ended by a line feed.
pub open spec fn join_lines(lines: Seq<Seq<char>>) -> Seq<char>
    decreases lines.len(),
{
    if lines.len() == 0 {
        Seq::empty()
    } else {
        join_lines(lines.drop_last()) + lines.last() + seq!['\n']
    }
}

/// The text of a lock file.
pub open spec fn lock_text(lock: LockView) -> Seq<char> {
    join_lines(token_lines(lock_tokens(lock)))
}

/// Joining two lists of lines joins their texts.
pub proof fn lemma_join_append(a: Seq<Seq<char>>, b: Seq<Seq<char>>)
    ensures
        join_lines(a + b) == join_lines(a) + join_lines(b),
    decreases b.len(),
{
    if b.len() == 0 {
        assert(a + b =~= a);
        assert(join_lines(a) + join_lines(b) =~= join_lines(a));
    } else {
        lemma_join_append(a, b.drop_last());
        assert((a + b).drop_last() =~= a + b.drop_last());
        assert((a + b).last() == b.last());
        assert(join_lines(a + b) =~= join_lines(a) + join_lines(b));
    }
}

/// The text of one more line.
pub proof fn lemma_join_push(lines: Seq<Seq<char>>, line: Seq<char>)
    ensures
        join_lines(lines.push(line)) == join_lines(lines) + line + seq!['\n'],
{
    assert(lines.push(line).drop_last() =~= lines);
}

/// The text of the lines that say `tokens`.
pub open spec fn tokens_text(tokens: Seq<TokenView>) -> Seq<char> {
    join_lines(token_lines(tokens))
}

/// The text of one more token.
pub proof fn lemma_tokens_push(tokens: Seq<TokenView>, token: TokenView)
    ensures
        tokens_text(tokens.push(token)) == tokens_text(tokens) + token_text(token) + seq!['\n'],
{
    assert(token_lines(tokens.push(token)) =~= token_lines(tokens).push(token_text(token)));
    lemma_join_push(token_lines(tokens), token_text(token));
}

/// The text of two lists of tokens, one after the other.
pub proof fn lemma_tokens_append(a: Seq<TokenView>, b: Seq<TokenView>)
    ensures
        tokens_text(a + b) == tokens_text(a) + tokens_text(b),
{
    assert(token_lines(a + b) =~= token_lines(a) + token_lines(b));
    lemma_join_append(token_lines(a), token_lines(b));
}

fn push_set(out: &mut String, heading: &str, Ghost(token): Ghost<TokenView>, set: &NameSet)
    requires
        heading@ == token_text(token),
    ensures
        final(out)@ == old(out)@ + tokens_text(set_tokens(token, set@)),
{
    let ghost start = out@;
    let n = set.len();
    if n == 0 {
        assert(start + tokens_text(Seq::empty()) =~= start);
        return ;
    }
    out.append(heading);
    out.push('\n');
    let ghost mut done = seq![token];
    proof {
        lemma_tokens_push(Seq::empty(), token);
        assert(Seq::<TokenView>::empty().push(token) =~= done);
        assert(out@ =~= start + tokens_text(done));
    }
    let mut i: usize = 0;
    while i < n
        invariant
            i <= n,
            n == set@.len(),
            out@ == start + tokens_text(done),
            done == seq![token] + Seq::new(i as nat, |j: int| TokenView::Item(set@[j])),
        decreases n - i,
    {
        let ghost before = out@;
        out.append("    - ");
        push_scalar(out, set.name_at(i).as_str());
        out.push('\n');
        proof {
            let item = TokenView::Item(set@[i as int]);
            lemma_tokens_push(done, item);
            assert(out@ =~= before + token_text(item) + seq!['\n']);
            assert(done.push(item) =~= seq![token] + Seq::new(
                (i + 1) as nat,
                |j: int| TokenView::Item(set@[j]),
            ));
            done = done.push(item);
        }
        i += 1;
    }
    assert(done =~= set_tokens(token, set@));
}

fn push_key_line(out: &mut String, key: &String)
    ensures
        final(out)@ == old(out)@ + token_text(TokenView::PackageKey(key@)) + seq!['\n'],
{
    let ghost start = out@;
    out.append("  ");
    push_scalar(out, key.as_str());
    out.append(":");
    out.push('\n');
    assert(out@ =~= start + token_text(TokenView::PackageKey(key@)) + seq!['\n']);
}

fn push_resolved_line(out: &mut String, archive: &String)
    ensures
        final(out)@ == old(out)@ + token_text(TokenView::Resolved(archive@)) + seq!['\n'],
{
    let ghost start = out@;
    out.append("    resolved: ");
    push_scalar(out, archive.as_str());
    out.push('\n');
    assert(out@ =~= start + token_text(TokenView::Resolved(archive@)) + seq!['\n']);
}

fn push_sha512_line(out: &mut String, sum: &String)
    ensures
        final(out)@ == old(out)@ + token_text(TokenView::Sha512(sum@)) + seq!['\n'],
{
    let ghost start = out@;
    out.append("    sha512: ");
    push_scalar(out, sum.as_str());
    out.push('\n');
    assert(out@ =~= start + token_text(TokenView::Sha512(sum@)) + seq!['\n']);
}

/// The text of the first three lines of a package.
proof fn lemma_package_head(t0: TokenView, t1: TokenView, t2: TokenView)
    ensures
        tokens_text(seq![t0, t1, t2]) == token_text(t0) + seq!['\n'] + token_text(t1) + seq![
            '\n',
        ] + token_text(t2) + seq!['\n'],
{
    lemma_tokens_push(Seq::empty(), t0);
    lemma_tokens_push(seq![t0], t1);
    lemma_tokens_push(seq![t0, t1], t2);
    assert(Seq::<TokenView>::empty().push(t0) =~= seq![t0]);
    assert(seq![t0].push(t1) =~= seq![t0, t1]);
    assert(seq![t0, t1].push(t2) =~= seq![t0, t1, t2]);
    assert(tokens_text(Seq::empty()) =~= Seq::<char>::empty());
    assert(tokens_text(seq![t0]) =~= token_text(t0) + seq!['\n']);
}

fn push_package(out: &mut String, key: &String, package: &KirboLockPackage)
    ensures
        final(out)@ == old(out)@ + tokens_text(package_tokens((key@, package@))),
{
    let ghost start = out@;
    let ghost view = package@;
    let ghost t0 = TokenView::PackageKey(key@);
    let ghost t1 = TokenView::Resolved(view.resolved);
    let ghost t2 = TokenView::Sha512(view.sha512);
    let ghost head = seq![t0, t1, t2];
    let ghost a = set_tokens(TokenView::Dependencies, view.dependencies);
    let ghost b = set_tokens(TokenView::PeerDependencies, view.peer_dependencies);
    let ghost c = set_tokens(TokenView::DevDependencies, view.dev_dependencies);
    push_key_line(out, key);
    push_resolved_line(out, package.resolved());
    push_sha512_line(out, package.sha512());
    proof {
        lemma_package_head(t0, t1, t2);
        assert(out@ =~= start + tokens_text(head));
    }
    push_set(out, "    dependencies:", Ghost(TokenView::Dependencies), package.dependencies());
    proof {
        lemma_tokens_append(head, a);
        assert(out@ =~= start + tokens_text(head + a));
    }
    push_set(
        out,
        "    peerDependencies:",
        Ghost(TokenView::PeerDependencies),
        package.peer_dependencies(),
    );
    proof {
        lemma_tokens_append(head + a, b);
        assert(out@ =~= start + tokens_text(head + a + b));
    }
    push_set(
        out,
        "    devDependencies:",
        Ghost(TokenView::DevDependencies),
        package.dev_dependencies(),
    );
    proof {
        lemma_tokens_append(head + a + b, c);
        assert(out@ =~= start + tokens_text(head + a + b + c));
    }
}

impl KirboLock {
    /// The text of this lock file.
    pub fn serialize(&self) -> (text: String)
        ensures
            text@ == lock_text(self@),
    {
        let ghost view = self@;
        let mut out = String::new();
        out.append("lockVersion: ");
        push_numeral(&mut out, self.lock_version() as u64);
        out.push('\n');
        let ghost first = seq![TokenView::Version(view.lock_version)];
        proof {
            lemma_tokens_push(Seq::empty(), TokenView::Version(view.lock_version));
            assert(Seq::<TokenView>::empty().push(TokenView::Version(view.lock_version)) =~= first);
            assert(out@ =~= tokens_text(first));
        }
        let binaries = self.binaries();
        let ghost mut done = first;
        if binaries.len() > 0 {
            out.append("binaries:");
            out.push('\n');
            proof {
                lemma_tokens_push(done, TokenView::Binaries);
                done = done.push(TokenView::Binaries);
            }
            let mut i: usize = 0;
            while i < binaries.len()
                invariant
                    i <= binaries.entries().len(),
                    binaries_view(binaries.listing()) == view.binaries,
                    out@ == tokens_text(done),
                    done == first + seq![TokenView::Binaries] + Seq::new(
                        i as nat,
                        |j: int| TokenView::Binary(view.binaries[j].0, view.binaries[j].1),
                    ),
                decreases binaries.entries().len() - i,
            {
                let ghost before = out@;
                let ghost entry = view.binaries[i as int];
                assert(entry == (binaries.entries()[i as int].0@, binaries.entries()[i as int].1@));
                out.append("  ");
                push_scalar(&mut out, binaries.name_at(i).as_str());
                out.append(": ");
                push_scalar(&mut out, binaries.value_at(i).as_str());
                out.push('\n');
                proof {
                    let token = TokenView::Binary(entry.0, entry.1);
                    lemma_tokens_push(done, token);
                    assert(out@ =~= before + token_text(token) + seq!['\n']);
                    assert(done.push(token) =~= first + seq![TokenView::Binaries] + Seq::new(
                        (i + 1) as nat,
                        |j: int| TokenView::Binary(view.binaries[j].0, view.binaries[j].1),
                    ));
                    done = done.push(token);
                }
                i += 1;
            }
        }
        assert(done =~= first + binaries_section(view.binaries));
        let ghost head = done;
        let packages = self.packages();
        if packages.len() > 0 {
            out.append("packages:");
            out.push('\n');
            proof {
                lemma_tokens_push(done, TokenView::Packages);
                done = done.push(TokenView::Packages);
                assert(view.packages.take(0) =~= Seq::<(Seq<char>, PackageView)>::empty());
                assert(done =~= head + seq![TokenView::Packages] + packages_tokens(
                    view.packages.take(0),
                ));
            }
            let mut i: usize = 0;
            while i < packages.len()
                invariant
                    i <= packages.entries().len(),
                    packages_view(packages.listing()) == view.packages,
                    out@ == tokens_text(done),
                    done == head + seq![TokenView::Packages] + packages_tokens(
                        view.packages.take(i as int),
                    ),
                decreases packages.entries().len() - i,
            {
                let ghost entry = view.packages[i as int];
                assert(entry == (packages.entries()[i as int].0@, packages.entries()[i as int].1@));
                push_package(&mut out, packages.name_at(i), packages.value_at(i));
                proof {
                    lemma_tokens_append(done, package_tokens(entry));
                    assert(view.packages.take(i + 1).drop_last() =~= view.packages.take(i as int));
                    assert(view.packages.take(i + 1).last() == entry);
                    assert(done + package_tokens(entry) =~= head + seq![TokenView::Packages]
                        + packages_tokens(view.packages.take(i + 1)));
                    done = done + package_tokens(entry);
                }
                i += 1;
            }
            assert(view.packages.take(i as int) =~= view.packages);
        }
        assert(done =~= lock_tokens(view));
        out
    }
}

} // verus!
