//! The arguments of the install command: the packages to add, each with the
//! group of dependencies it is to join.

use vstd::prelude::*;
use crate::options::{help_word, is_help_word, looks_like_flag, strings_view};
use crate::text::{chars_of, string_of_range};

verus! {

/// A package to add, under the group it is to join.
#[derive(Debug, PartialEq, Eq)]
pub enum NewPackage {
    Dependency(String),
    DevDependency(String),
    TestDependency(String),
    OptionalDependency(String),
}

/// The packages that the command line asks to add, in its order.
#[derive(Debug, PartialEq, Eq)]
pub struct Options {
    pub packages_to_add: Vec<NewPackage>,
}

/// Why the command does not run.
#[derive(Debug, PartialEq, Eq)]
pub enum Notice {
    /// The help text was asked for; the program leaves with success.
    Help,
    /// This option is not known; the program leaves with failure.
    UnrecognizedOption(String),
}

/// The mathematical value of a [`NewPackage`].
pub ghost enum NewPackageView {
    Dependency(Seq<char>),
    DevDependency(Seq<char>),
    TestDependency(Seq<char>),
    OptionalDependency(Seq<char>),
}

/// The mathematical value of a [`Notice`].
pub ghost enum NoticeView {
    Help,
    UnrecognizedOption(Seq<char>),
}

impl View for NewPackage {
    type V = NewPackageView;

    open spec fn view(&self) -> NewPackageView {
        match self {
            NewPackage::Dependency(name) => NewPackageView::Dependency(name@),
            NewPackage::DevDependency(name) => NewPackageView::DevDependency(name@),
            NewPackage::TestDependency(name) => NewPackageView::TestDependency(name@),
            NewPackage::OptionalDependency(name) => NewPackageView::OptionalDependency(name@),
        }
    }
}

impl View for Notice {
    type V = NoticeView;

    open spec fn view(&self) -> NoticeView {
        match self {
            Notice::Help => NoticeView::Help,
            Notice::UnrecognizedOption(arg) => NoticeView::UnrecognizedOption(arg@),
        }
    }
}

/// The value of each package.
pub open spec fn packages_view(packages: Seq<NewPackage>) -> Seq<NewPackageView> {
    Seq::new(packages.len(), |i: int| packages[i]@)
}

impl View for Options {
    type V = Seq<NewPackageView>;

    open spec fn view(&self) -> Seq<NewPackageView> {
        packages_view(self.packages_to_add@)
    }
}

/// `c` is an ASCII letter or digit.
pub open spec fn is_alphanumeric(c: char) -> bool {
    ('0' <= c && c <= '9') || ('a' <= c && c <= 'z') || ('A' <= c && c <= 'Z')
}

/// `arg` is `-`, the letter `group`, and a name that starts with a letter or digit.
pub open spec fn names_group(arg: Seq<char>, group: char) -> bool {
    arg.len() >= 3 && arg[0] == '-' && arg[1] == group && is_alphanumeric(arg[2])
}

/// What one argument asks for.
pub ghost enum Meaning {
    Add(NewPackageView),
    Unrecognized,
    Nothing,
}

/// What `arg` asks for: a bare name joins the dependencies; `-D`, `-T` and
/// `-O` before a name join it to the development, test and optional
/// dependencies; another flag is not recognized; anything else says nothing.
pub open spec fn meaning(arg: Seq<char>) -> Meaning {
    if arg.len() > 0 && is_alphanumeric(arg[0]) {
        Meaning::Add(NewPackageView::Dependency(arg))
    } else if names_group(arg, 'D') {
        Meaning::Add(NewPackageView::DevDependency(arg.skip(2)))
    } else if names_group(arg, 'T') {
        Meaning::Add(NewPackageView::TestDependency(arg.skip(2)))
    } else if names_group(arg, 'O') {
        Meaning::Add(NewPackageView::OptionalDependency(arg.skip(2)))
    } else if looks_like_flag(arg) {
        Meaning::Unrecognized
    } else {
        Meaning::Nothing
    }
}

/// The packages that `args` add, in order, or the first argument that is
/// not recognized.
pub open spec fn gather(args: Seq<Seq<char>>) -> Result<Seq<NewPackageView>, NoticeView>
    decreases args.len(),
{
    if args.len() == 0 {
        Ok(Seq::empty())
    } else {
        match meaning(args[0]) {
            Meaning::Unrecognized => Err(NoticeView::UnrecognizedOption(args[0])),
            Meaning::Nothing => gather(args.skip(1)),
            Meaning::Add(package) => match gather(args.skip(1)) {
                Ok(rest) => Ok(seq![package] + rest),
                Err(notice) => Err(notice),
            },
        }
    }
}

/// What the arguments `args` of the install command ask for: the help text
/// where a help word stands alone, otherwise what `gather` finds.
pub open spec fn parse_install(args: Seq<Seq<char>>) -> Result<Seq<NewPackageView>, NoticeView> {
    if args.len() == 1 && is_help_word(args[0]) {
        Err(NoticeView::Help)
    } else {
        gather(args)
    }
}

/// What the packages found so far and the outcome of the rest come to.
pub open spec fn after(found: Seq<NewPackageView>, rest: Result<Seq<NewPackageView>, NoticeView>) -> Result<
    Seq<NewPackageView>,
    NoticeView,
> {
    match rest {
        Ok(more) => Ok(found + more),
        Err(notice) => Err(notice),
    }
}

fn alphanumeric(c: char) -> (r: bool)
    ensures
        r == is_alphanumeric(c),
{
    (c >= '0' && c <= '9') || (c >= 'a' && c <= 'z') || (c >= 'A' && c <= 'Z')
}

fn group_named(chars: &Vec<char>, group: char) -> (r: bool)
    ensures
        r == names_group(chars@, group),
{
    chars.len() >= 3 && chars[0] == '-' && chars[1] == group && alphanumeric(chars[2])
}

impl Options {
    /// Reads the arguments of the install command.
    pub fn try_from(args: &[String]) -> (r: Result<Options, Notice>)
        ensures
            match r {
                Ok(options) => parse_install(strings_view(args@)) == Ok::<
                    Seq<NewPackageView>,
                    NoticeView,
                >(options@),
                Err(notice) => parse_install(strings_view(args@)) == Err::<
                    Seq<NewPackageView>,
                    NoticeView,
                >(notice@),
            },
    {
        if args.len() == 1 && help_word(args[0].as_str()) {
            return Err(Notice::Help);
        }
        let ghost all = strings_view(args@);
        let mut packages: Vec<NewPackage> = Vec::new();
        let mut k: usize = 0;
        proof {
            assert(all.skip(0) =~= all);
            assert(packages_view(packages@) + gather(all)->Ok_0 =~= gather(all)->Ok_0);
        }
        while k < args.len()
            invariant
                k <= args.len(),
                all == strings_view(args@),
                parse_install(all) == gather(all),
                gather(all) == after(packages_view(packages@), gather(all.skip(k as int))),
            decreases args.len() - k,
        {
            let chars = chars_of(args[k].as_str());
            let n = chars.len();
            let ghost rest = all.skip(k as int);
            let ghost found = packages_view(packages@);
            proof {
                assert(rest[0] == chars@);
                assert(rest.skip(1) =~= all.skip(k + 1));
            }
            if n > 0 && alphanumeric(chars[0]) {
                packages.push(NewPackage::Dependency(args[k].clone()));
            } else if group_named(&chars, 'D') {
                proof {
                    assert(chars@.skip(2) =~= chars@.subrange(2, n as int));
                }
                packages.push(NewPackage::DevDependency(string_of_range(&chars, 2, n)));
            } else if group_named(&chars, 'T') {
                proof {
                    assert(chars@.skip(2) =~= chars@.subrange(2, n as int));
                }
                packages.push(NewPackage::TestDependency(string_of_range(&chars, 2, n)));
            } else if group_named(&chars, 'O') {
                proof {
                    assert(chars@.skip(2) =~= chars@.subrange(2, n as int));
                }
                packages.push(NewPackage::OptionalDependency(string_of_range(&chars, 2, n)));
            } else if n >= 2 && chars[0] == '-' {
                return Err(Notice::UnrecognizedOption(args[k].clone()));
            }
            proof {
                match meaning(chars@) {
                    Meaning::Add(package) => {
                        assert(packages_view(packages@) =~= found.push(package));
                        if let Ok(more) = gather(all.skip(k + 1)) {
                            assert(found + (seq![package] + more) =~= found.push(package) + more);
                        }
                    },
                    _ => {
                        assert(packages_view(packages@) =~= found);
                    },
                }
            }
            k += 1;
        }
        proof {
            assert(packages_view(packages@) + Seq::<NewPackageView>::empty() =~= packages_view(
                packages@,
            ));
        }
        Ok(Options { packages_to_add: packages })
    }
}

} // verus!
