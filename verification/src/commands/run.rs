//! The run command: which script of the manifest to hand to the shell, and
//! how the further arguments reach it.

use vstd::prelude::*;
use crate::npm::pairs_view;
use crate::options::strings_view;
use crate::package_json::{last_given, Package};
use crate::text::{numeral, push_numeral};

verus! {

/// Why no script is run.
#[derive(Debug, PartialEq, Eq)]
pub enum Notice {
    /// No script was named: the scripts of the manifest are to be listed.
    ListScripts,
    /// The manifest has no script of this name.
    NoSuchScript(String),
}

/// The mathematical value of a [`Notice`].
pub ghost enum NoticeView {
    ListScripts,
    NoSuchScript(Seq<char>),
}

impl View for Notice {
    type V = NoticeView;

    open spec fn view(&self) -> NoticeView {
        match self {
            Notice::ListScripts => NoticeView::ListScripts,
            Notice::NoSuchScript(name) => NoticeView::NoSuchScript(name@),
        }
    }
}

/// ` $0 $1` and so on: one positional parameter of the shell for each of
/// `count` further arguments.
pub open spec fn parameters(count: nat) -> Seq<char>
    decreases count,
{
    if count == 0 {
        Seq::empty()
    } else {
        parameters((count - 1) as nat) + seq![' ', '$'] + numeral((count - 1) as nat)
    }
}

/// The line to hand to the shell for the arguments `args` of the run
/// command: the script that the first argument names, followed by one
/// positional parameter for each further argument.
pub open spec fn shell_line(scripts: Seq<(Seq<char>, Seq<char>)>, args: Seq<Seq<char>>) -> Result<
    Seq<char>,
    NoticeView,
> {
    if args.len() == 0 {
        Err(NoticeView::ListScripts)
    } else {
        match last_given(scripts, args[0]) {
            None => Err(NoticeView::NoSuchScript(args[0])),
            Some(script) => Ok(script + parameters((args.len() - 1) as nat)),
        }
    }
}

/// The text that the last pair named `name` gives.
pub fn find_last<'a>(pairs: &'a Vec<(String, String)>, name: &str) -> (r: Option<&'a String>)
    ensures
        match r {
            Some(text) => last_given(pairs_view(pairs@), name@) == Some(text@),
            None => last_given(pairs_view(pairs@), name@) is None,
        },
{
    let ghost all = pairs_view(pairs@);
    let mut k: usize = pairs.len();
    assert(all.take(k as int) =~= all);
    while k > 0
        invariant
            k <= pairs.len(),
            all == pairs_view(pairs@),
            last_given(all, name@) == last_given(all.take(k as int), name@),
        decreases k,
    {
        proof {
            assert(all.take(k as int).drop_last() =~= all.take(k - 1));
            assert(all.take(k as int).last() == all[k - 1]);
        }
        k -= 1;
        if pairs[k].0.as_str().eq(name) {
            return Some(&pairs[k].1);
        }
    }
    None
}

/// The line to hand to the shell for the arguments `args` of the run command.
pub fn script_line(package: &Package, args: &[String]) -> (r: Result<String, Notice>)
    ensures
        match r {
            Ok(line) => shell_line(pairs_view(package.scripts@), strings_view(args@)) == Ok::<
                Seq<char>,
                NoticeView,
            >(line@),
            Err(notice) => shell_line(pairs_view(package.scripts@), strings_view(args@)) == Err::<
                Seq<char>,
                NoticeView,
            >(notice@),
        },
{
    if args.len() == 0 {
        return Err(Notice::ListScripts);
    }
    let script = match find_last(&package.scripts, args[0].as_str()) {
        Some(script) => script,
        None => {
            return Err(Notice::NoSuchScript(args[0].clone()));
        },
    };
    let mut line = script.clone();
    let mut k: usize = 1;
    assert(line@ =~= script@ + parameters(0));
    while k < args.len()
        invariant
            1 <= k <= args.len(),
            line@ == script@ + parameters((k - 1) as nat),
        decreases args.len() - k,
    {
        let ghost before = line@;
        line.push(' ');
        line.push('$');
        push_numeral(&mut line, (k - 1) as u64);
        proof {
            assert(line@ =~= script@ + parameters(k as nat));
        }
        k += 1;
    }
    Ok(line)
}

} // verus!
