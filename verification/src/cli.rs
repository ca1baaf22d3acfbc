//! The command `fmt`.

use vstd::prelude::*;
use vstd::string::*;

use crate::text::same_str;
use crate::text::strings;

verus! {

/// What the command is asked to do.
#[derive(Debug)]
pub enum Command {
    /// Say how it is used.
    Help,
    /// Format the standard input.
    Stdin,
    /// Format files: in place, or to the standard output.
    Files { write: bool, files: Vec<String> },
}

/// What a [`Command`] holds.
pub enum CommandView {
    Help,
    Stdin,
    Files { write: bool, files: Seq<Seq<char>> },
}

impl View for Command {
    type V = CommandView;

    open spec fn view(&self) -> CommandView {
        match self {
            Command::Help => CommandView::Help,
            Command::Stdin => CommandView::Stdin,
            Command::Files { write, files } => CommandView::Files {
                write: *write,
                files: strings(files@),
            },
        }
    }
}

pub open spec fn is_help(arg: Seq<char>) -> bool {
    arg == "--help"@ || arg == "-h"@
}

pub open spec fn is_write(arg: Seq<char>) -> bool {
    arg == "--write"@ || arg == "-w"@
}

/// Whether some argument asks for help.
pub open spec fn wants_help(args: Seq<Seq<char>>) -> bool {
    exists|i: int| 0 <= i < args.len() && is_help(#[trigger] args[i])
}

/// Whether some argument asks to write in place.
pub open spec fn wants_write(args: Seq<Seq<char>>) -> bool {
    exists|i: int| 0 <= i < args.len() && is_write(#[trigger] args[i])
}

/// The arguments that are files.
pub open spec fn files_in(args: Seq<Seq<char>>) -> Seq<Seq<char>>
    decreases args.len(),
{
    if args.len() == 0 {
        seq![]
    } else {
        let rest = files_in(args.drop_last());
        if is_help(args.last()) || is_write(args.last()) {
            rest
        } else {
            rest.push(args.last())
        }
    }
}

/// The command that the arguments give.
pub open spec fn command_of(args: Seq<Seq<char>>) -> CommandView {
    if wants_help(args) {
        CommandView::Help
    } else if files_in(args).len() == 0 {
        CommandView::Stdin
    } else {
        CommandView::Files { write: wants_write(args), files: files_in(args) }
    }
}

/// What is done with a formatted file.
#[derive(Debug, Clone, Copy, PartialEq, Eq, Structural)]
pub enum Output {
    /// Print it.
    Print,
    /// Write it in the place of the file.
    Write,
    /// Leave the file alone.
    Keep,
}

/// What is done with the formatted text of a file.
pub open spec fn output_for(write: bool, source: Seq<char>, formatted: Seq<char>) -> Output {
    if !write {
        Output::Print
    } else if formatted == source {
        Output::Keep
    } else {
        Output::Write
    }
}

/// Reads the arguments of the command.
pub fn parse_args(args: &Vec<String>) -> (r: Command)
    ensures
        r@ == command_of(strings(args@)),
{
    let ghost all = strings(args@);
    let mut write = false;
    let mut files: Vec<String> = Vec::new();
    let mut i: usize = 0;
    assert(strings(files@) =~= files_in(all.take(0)));
    while i < args.len()
        invariant
            i <= args@.len(),
            all == strings(args@),
            forall|k: int| 0 <= k < i ==> !is_help(#[trigger] all[k]),
            write == exists|k: int| 0 <= k < i && is_write(#[trigger] all[k]),
            strings(files@) == files_in(all.take(i as int)),
        decreases args@.len() - i,
    {
        let arg = args[i].as_str();
        assert(all.take(i + 1).drop_last() =~= all.take(i as int));
        assert(all.take(i + 1).last() == all[i as int]);
        assert(all[i as int] == arg@);
        if same_str(arg, "--help") || same_str(arg, "-h") {
            assert(is_help(all[i as int]));
            return Command::Help;
        }
        if same_str(arg, "--write") || same_str(arg, "-w") {
            assert(is_write(all[i as int]));
            write = true;
        } else {
            let ghost before = strings(files@);
            files.push(args[i].clone());
            assert(strings(files@) =~= before.push(all[i as int]));
        }
        i += 1;
    }
    assert(all.take(all.len() as int) =~= all);
    if files.len() == 0 {
        Command::Stdin
    } else {
        Command::Files { write, files }
    }
}

/// What is done with the formatted text of a file.
pub fn choose_output(write: bool, source: &str, formatted: &str) -> (r: Output)
    ensures
        r == output_for(write, source@, formatted@),
{
    if !write {
        Output::Print
    } else if same_str(formatted, source) {
        Output::Keep
    } else {
        Output::Write
    }
}

/// The exit code of the command, given of each file whether it failed: a file
/// that fails does not keep the others from being formatted.
pub fn exit_code(failed: &Vec<bool>) -> (r: i32)
    ensures
        r == (if exists|i: int| 0 <= i < failed@.len() && failed@[i] {
            1int
        } else {
            0int
        }),
{
    let mut i: usize = 0;
    while i < failed.len()
        invariant
            i <= failed@.len(),
            forall|k: int| 0 <= k < i ==> !failed@[k],
        decreases failed@.len() - i,
    {
        if failed[i] {
            assert(failed@[i as int]);
            return 1;
        }
        i += 1;
    }
    0
}

proof fn lemma_files_in(args: Seq<Seq<char>>)
    requires
        forall|i: int|
            0 <= i < args.len() ==> #[trigger] args[i] != "--help"@ && args[i] != "-h"@,
    ensures
        files_in(args) == args.filter(|a: Seq<char>| a != "--write"@ && a != "-w"@),
    decreases args.len(),
{
    reveal(Seq::filter);
    let keep = |a: Seq<char>| a != "--write"@ && a != "-w"@;
    if args.len() == 0 {
        assert(files_in(args) =~= args.filter(keep));
    } else {
        let front = args.drop_last();
        assert forall|i: int| 0 <= i < front.len() implies #[trigger] front[i] != "--help"@
            && front[i] != "-h"@ by {
            assert(front[i] == args[i]);
        }
        lemma_files_in(front);
        assert(args[args.len() - 1] == args.last());
    }
}

/// Help is asked for by either flag, anywhere; otherwise all arguments but the
/// flags to write are files, in their order, and without files it is the
/// standard input that is formatted.
pub proof fn law_commands(args: Seq<Seq<char>>)
    ensures
        ({
            let files = args.filter(|a: Seq<char>| a != "--write"@ && a != "-w"@);
            if args.contains("--help"@) || args.contains("-h"@) {
                command_of(args) is Help
            } else if files.len() == 0 {
                command_of(args) is Stdin
            } else {
                command_of(args) == (CommandView::Files {
                    write: args.contains("--write"@) || args.contains("-w"@),
                    files,
                })
            }
        }),
{
    if args.contains("--help"@) || args.contains("-h"@) {
        let word = if args.contains("--help"@) {
            "--help"@
        } else {
            "-h"@
        };
        let i = choose|i: int| 0 <= i < args.len() && args[i] == word;
        assert(is_help(args[i]));
    } else {
        assert forall|i: int| 0 <= i < args.len() implies #[trigger] args[i] != "--help"@ && args[i]
            != "-h"@ by {
            assert(args.contains(args[i]));
        }
        lemma_files_in(args);
        if args.contains("--write"@) || args.contains("-w"@) {
            let word = if args.contains("--write"@) {
                "--write"@
            } else {
                "-w"@
            };
            let i = choose|i: int| 0 <= i < args.len() && args[i] == word;
            assert(is_write(args[i]));
        } else if wants_write(args) {
            let i = choose|i: int| 0 <= i < args.len() && is_write(#[trigger] args[i]);
            assert(args.contains(args[i]));
        }
    }
}

/// A file is touched only where it is to be written and formatting changes it;
/// what is not to be written is printed, changed or not.
pub proof fn law_output(source: Seq<char>, formatted: Seq<char>)
    ensures
        output_for(false, source, formatted) == Output::Print,
        output_for(true, source, formatted) == Output::Write <==> formatted != source,
        output_for(true, source, formatted) == Output::Keep <==> formatted == source,
{
}

} // verus!
