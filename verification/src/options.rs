//! The command line of the program: which command it names and what is left
//! for that command.

use vstd::prelude::*;

verus! {

/// What the program is asked to do.
#[derive(Clone, Copy, Debug, PartialEq, Eq, Structural)]
pub enum Command {
    Install,
    Run,
    Exec,
}

/// The command and the arguments left for it.
#[derive(Debug, PartialEq, Eq)]
pub struct Options {
    pub command: Command,
    pub remaining_args: Vec<String>,
}

/// What to print, in place of running a command, before leaving with success.
#[derive(Clone, Copy, Debug, PartialEq, Eq, Structural)]
pub enum Notice {
    Help,
    Version,
}

/// The mathematical value of [`Options`].
pub ghost struct OptionsView {
    pub command: Command,
    pub remaining_args: Seq<Seq<char>>,
}

/// The characters of each string.
pub open spec fn strings_view(strings: Seq<String>) -> Seq<Seq<char>> {
    Seq::new(strings.len(), |i: int| strings[i]@)
}

impl View for Options {
    type V = OptionsView;

    open spec fn view(&self) -> OptionsView {
        OptionsView {
            command: self.command,
            remaining_args: strings_view(self.remaining_args@),
        }
    }
}

/// `arg` asks for the help text.
pub open spec fn is_help_word(arg: Seq<char>) -> bool {
    arg == "-h"@ || arg == "-help"@ || arg == "--help"@ || arg == "-?"@ || arg == "help"@
}

/// `arg` asks for the version.
pub open spec fn is_version_word(arg: Seq<char>) -> bool {
    arg == "-v"@ || arg == "-V"@ || arg == "-version"@ || arg == "--version"@ || arg
        == "version"@
}

/// The command that `arg` names, if it names one.
pub open spec fn named_command(arg: Seq<char>) -> Option<Command> {
    if arg == "add"@ || arg == "install"@ || arg == "i"@ {
        Some(Command::Install)
    } else if arg == "run"@ || arg == "run-script"@ {
        Some(Command::Run)
    } else if arg == "exec"@ || arg == "x"@ || arg == "--"@ {
        Some(Command::Exec)
    } else {
        None
    }
}

/// `arg` is a dash followed by something.
pub open spec fn looks_like_flag(arg: Seq<char>) -> bool {
    arg.len() >= 2 && arg[0] == '-'
}

/// What the command line `args` asks for.
///
/// A lone help or version word asks for that notice. Otherwise the first
/// argument decides: a command's name selects the command and is dropped; a
/// flag means install and a plain word means run, and both stay among the
/// arguments. Without arguments the command is install.
pub open spec fn parse_options(args: Seq<Seq<char>>) -> Result<OptionsView, Notice> {
    if args.len() == 1 && is_help_word(args[0]) {
        Err(Notice::Help)
    } else if args.len() == 1 && is_version_word(args[0]) {
        Err(Notice::Version)
    } else if args.len() == 0 {
        Ok(OptionsView { command: Command::Install, remaining_args: args })
    } else {
        match named_command(args[0]) {
            Some(command) => Ok(OptionsView { command, remaining_args: args.skip(1) }),
            None => Ok(
                OptionsView {
                    command: if looks_like_flag(args[0]) {
                        Command::Install
                    } else {
                        Command::Run
                    },
                    remaining_args: args,
                },
            ),
        }
    }
}

/// Whether `arg` asks for the help text.
pub fn help_word(arg: &str) -> (r: bool)
    ensures
        r == is_help_word(arg@),
{
    arg.eq("-h") || arg.eq("-help") || arg.eq("--help") || arg.eq("-?") || arg.eq("help")
}

/// Whether `arg` asks for the version.
pub fn version_word(arg: &str) -> (r: bool)
    ensures
        r == is_version_word(arg@),
{
    arg.eq("-v") || arg.eq("-V") || arg.eq("-version") || arg.eq("--version") || arg.eq(
        "version",
    )
}

/// Whether `arg` is a dash followed by something.
pub fn flag_like(arg: &str) -> (r: bool)
    ensures
        r == looks_like_flag(arg@),
{
    arg.unicode_len() >= 2 && arg.get_char(0) == '-'
}

fn command_named(arg: &str) -> (r: Option<Command>)
    ensures
        r == named_command(arg@),
{
    if arg.eq("add") || arg.eq("install") || arg.eq("i") {
        Some(Command::Install)
    } else if arg.eq("run") || arg.eq("run-script") {
        Some(Command::Run)
    } else if arg.eq("exec") || arg.eq("x") || arg.eq("--") {
        Some(Command::Exec)
    } else {
        None
    }
}

/// A copy of `args[from..]`.
pub fn copy_from(args: &[String], from: usize) -> (r: Vec<String>)
    requires
        from <= args.len(),
    ensures
        strings_view(r@) == strings_view(args@).skip(from as int),
{
    let mut r: Vec<String> = Vec::new();
    let mut i: usize = from;
    while i < args.len()
        invariant
            from <= i <= args.len(),
            r.len() == i - from,
            forall|j: int| 0 <= j < r.len() ==> r@[j]@ == args@[from + j]@,
        decreases args.len() - i,
    {
        r.push(args[i].clone());
        i += 1;
    }
    assert(strings_view(r@) =~= strings_view(args@).skip(from as int));
    r
}

impl Options {
    /// Reads the command line `args`, the program's own name left out.
    pub fn try_from(args: &[String]) -> (r: Result<Options, Notice>)
        ensures
            match r {
                Ok(options) => parse_options(strings_view(args@)) == Ok::<OptionsView, Notice>(
                    options@,
                ),
                Err(notice) => parse_options(strings_view(args@)) == Err::<OptionsView, Notice>(
                    notice,
                ),
            },
    {
        if args.len() == 1 {
            if help_word(args[0].as_str()) {
                return Err(Notice::Help);
            }
            if version_word(args[0].as_str()) {
                return Err(Notice::Version);
            }
        }
        if args.len() == 0 {
            let options = Options { command: Command::Install, remaining_args: Vec::new() };
            assert(options@.remaining_args =~= strings_view(args@));
            return Ok(options);
        }
        let first = args[0].as_str();
        match command_named(first) {
            Some(command) => Ok(Options { command, remaining_args: copy_from(args, 1) }),
            None => {
                let command = if flag_like(first) {
                    Command::Install
                } else {
                    Command::Run
                };
                let remaining_args = copy_from(args, 0);
                assert(strings_view(args@).skip(0) =~= strings_view(args@));
                Ok(Options { command, remaining_args })
            },
        }
    }
}

} // verus!
