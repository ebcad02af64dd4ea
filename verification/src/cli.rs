//! What a command line asks for.

use vstd::prelude::*;

use crate::number::{decimal, format_decimal, parse_unsigned, unsigned_of};
use crate::text::{chars_of, same_text, trim, trimmed};

verus! {

/// What a command line asks for. The first argument is the name of the program.
pub enum Command {
    /// Nothing: say what can be asked for.
    Help,
    /// The reading of a log, but without a file: say how that is asked for.
    HelpRead,
    /// The writing of a log, but without its files: say how that is asked for.
    HelpWrite,
    /// The dump of a log, but without a file or a count: say how that is asked for.
    HelpDump,
    /// The copy of a log, but not between two files: say how that is asked for.
    HelpCopy,
    /// To print the messages of a log, at most so many.
    Read { input: String, limit: Option<usize> },
    /// To make a log of printed messages.
    Write { output: String, input: String },
    /// To print the first messages of a log for inspection.
    Dump { input: String, count: usize },
    /// To copy a log.
    Copy { input: String, output: String },
}

/// A [`Command`] as contracts see it.
pub enum CommandView {
    Help,
    HelpRead,
    HelpWrite,
    HelpDump,
    HelpCopy,
    Read { input: Seq<char>, limit: Option<int> },
    Write { output: Seq<char>, input: Seq<char> },
    Dump { input: Seq<char>, count: int },
    Copy { input: Seq<char>, output: Seq<char> },
}

impl View for Command {
    type V = CommandView;

    open spec fn view(&self) -> CommandView {
        match self {
            Command::Help => CommandView::Help,
            Command::HelpRead => CommandView::HelpRead,
            Command::HelpWrite => CommandView::HelpWrite,
            Command::HelpDump => CommandView::HelpDump,
            Command::HelpCopy => CommandView::HelpCopy,
            Command::Read { input, limit } => CommandView::Read {
                input: input@,
                limit: match limit {
                    Some(n) => Some(*n as int),
                    None => None,
                },
            },
            Command::Write { output, input } => CommandView::Write {
                output: output@,
                input: input@,
            },
            Command::Dump { input, count } => CommandView::Dump {
                input: input@,
                count: *count as int,
            },
            Command::Copy { input, output } => CommandView::Copy {
                input: input@,
                output: output@,
            },
        }
    }
}

/// Arguments as contracts see them.
pub open spec fn argument_views(args: Seq<String>) -> Seq<Seq<char>> {
    Seq::new(args.len(), |i: int| args[i]@)
}

/// What a command line asks for. A limit that is no number is none, and a count that is
/// no number is 10.
pub open spec fn command_of(a: Seq<Seq<char>>) -> CommandView {
    if a.len() < 2 {
        CommandView::Help
    } else if a[1] == "read"@ {
        if a.len() < 3 {
            CommandView::HelpRead
        } else {
            CommandView::Read {
                input: a[2],
                limit: if a.len() == 5 && a[3] == "--limit"@ {
                    unsigned_of(a[4], 10, usize::MAX as int)
                } else {
                    None
                },
            }
        }
    } else if a[1] == "write"@ {
        if a.len() != 4 {
            CommandView::HelpWrite
        } else {
            CommandView::Write { output: a[2], input: a[3] }
        }
    } else if a[1] == "--dump"@ {
        if a.len() != 4 {
            CommandView::HelpDump
        } else {
            CommandView::Dump {
                input: a[2],
                count: match unsigned_of(a[3], 10, usize::MAX as int) {
                    Some(n) => n,
                    None => 10,
                },
            }
        }
    } else if a.len() != 3 {
        CommandView::HelpCopy
    } else {
        CommandView::Copy { input: a[1], output: a[2] }
    }
}

/// The number that an argument stands for.
fn parse_count(s: &str) -> (n: Option<usize>)
    ensures
        match n {
            Some(v) => unsigned_of(s@, 10, usize::MAX as int) == Some(v as int),
            None => unsigned_of(s@, 10, usize::MAX as int) is None,
        },
{
    match parse_unsigned(&chars_of(s), 10, usize::MAX as u64) {
        Some(v) => Some(v as usize),
        None => None,
    }
}

/// Whether an argument is the given text.
fn is_argument(arg: &String, text: &str) -> (res: bool)
    ensures
        res == (arg@ == text@),
{
    same_text(&chars_of(arg.as_str()), text)
}

/// What a command line asks for.
pub fn parse_command(args: &[String]) -> (command: Command)
    ensures
        command@ == command_of(argument_views(args@)),
{
    let ghost a = argument_views(args@);
    let n: usize = args.len();
    if n < 2 {
        return Command::Help;
    }
    assert(a[1] == args@[1]@);
    if is_argument(&args[1], "read") {
        if n < 3 {
            return Command::HelpRead;
        }
        assert(a[2] == args@[2]@);
        let mut limit: Option<usize> = None;
        if n == 5 {
            assert(a[3] == args@[3]@ && a[4] == args@[4]@);
            if is_argument(&args[3], "--limit") {
                limit = parse_count(args[4].as_str());
            }
        }
        Command::Read { input: args[2].clone(), limit }
    } else if is_argument(&args[1], "write") {
        if n != 4 {
            return Command::HelpWrite;
        }
        assert(a[2] == args@[2]@ && a[3] == args@[3]@);
        Command::Write { output: args[2].clone(), input: args[3].clone() }
    } else if is_argument(&args[1], "--dump") {
        if n != 4 {
            return Command::HelpDump;
        }
        assert(a[2] == args@[2]@ && a[3] == args@[3]@);
        let count: usize = match parse_count(args[3].as_str()) {
            Some(count) => count,
            None => 10,
        };
        Command::Dump { input: args[2].clone(), count }
    } else {
        if n != 3 {
            return Command::HelpCopy;
        }
        assert(a[2] == args@[2]@);
        Command::Copy { input: args[1].clone(), output: args[2].clone() }
    }
}

/// The text that says how commands are asked for, by the name of the program; none where
/// the command is complete.
pub open spec fn help_of(command: CommandView, program: Seq<char>) -> Option<Seq<char>> {
    match command {
        CommandView::Help => Some(
            "Usage:\n  "@ + program + " <input.blf> <output.blf>\n  "@ + program
                + " --dump <input.blf> <count>\n  "@ + program
                + " read <input.blf> [--limit N]\n  "@ + program
                + " write <output.blf> <input.jsonl>\n"@,
        ),
        CommandView::HelpRead => Some("Usage: "@ + program + " read <input.blf> [--limit N]\n"@),
        CommandView::HelpWrite => Some(
            "Usage: "@ + program + " write <output.blf> <input.jsonl>\n"@,
        ),
        CommandView::HelpDump => Some("Usage: "@ + program + " --dump <input.blf> <count>\n"@),
        CommandView::HelpCopy => Some("Usage: "@ + program + " <input.blf> <output.blf>\n"@),
        _ => None,
    }
}

/// The text that says how one command is asked for.
fn format_usage(program: &str, rest: &str) -> (text: String)
    ensures
        text@ == "Usage: "@ + program@ + rest@,
{
    let mut text: String = "Usage: ".to_owned();
    text.append(program);
    text.append(rest);
    text
}

/// The text that says how commands are asked for.
pub fn help(command: &Command, program: &str) -> (text: Option<String>)
    ensures
        match text {
            Some(t) => help_of(command@, program@) == Some(t@),
            None => help_of(command@, program@) is None,
        },
{
    match command {
        Command::Help => {
            let mut text: String = "Usage:\n  ".to_owned();
            text.append(program);
            text.append(" <input.blf> <output.blf>\n  ");
            text.append(program);
            text.append(" --dump <input.blf> <count>\n  ");
            text.append(program);
            text.append(" read <input.blf> [--limit N]\n  ");
            text.append(program);
            text.append(" write <output.blf> <input.jsonl>\n");
            Some(text)
        },
        Command::HelpRead => Some(format_usage(program, " read <input.blf> [--limit N]\n")),
        Command::HelpWrite => Some(format_usage(program, " write <output.blf> <input.jsonl>\n")),
        Command::HelpDump => Some(format_usage(program, " --dump <input.blf> <count>\n")),
        Command::HelpCopy => Some(format_usage(program, " <input.blf> <output.blf>\n")),
        _ => None,
    }
}

/// Whether enough messages have been printed.
pub fn is_limit_reached(count: usize, limit: Option<usize>) -> (res: bool)
    ensures
        res == (limit matches Some(max) && count >= max),
{
    match limit {
        Some(max) => count >= max,
        None => false,
    }
}

/// What to say while a log is copied, after so many messages: something after every two
/// hundred thousand.
pub fn progress(count: u64) -> (text: Option<String>)
    ensures
        match text {
            Some(t) => count % 200_000 == 0 && t@ == "processed "@ + decimal(count as int)
                + " messages..."@,
            None => count % 200_000 != 0,
        },
{
    if count % 200_000 == 0 {
        let mut text: String = "processed ".to_owned();
        text.append(format_decimal(count).as_str());
        text.append(" messages...");
        Some(text)
    } else {
        None
    }
}

/// What to say when a log of so many messages has been copied.
pub fn conclusion(count: u64) -> (text: String)
    ensures
        text@ == "done: wrote "@ + decimal(count as int) + " messages"@,
{
    let mut text: String = "done: wrote ".to_owned();
    text.append(format_decimal(count).as_str());
    text.append(" messages");
    text
}

/// Whether a line holds nothing but white space.
pub fn is_blank(line: &str) -> (res: bool)
    ensures
        res == (trimmed(line@).len() == 0),
{
    trim(&chars_of(line)).len() == 0
}

/// What is asked for, by the arguments behind the name of the program. `read` takes a file and
/// maybe, as the only ones behind it, `--limit` and a number; `write` and `--dump` take two
/// arguments; any other word is the first of two files. A number of messages that is none is
/// no limit, and for a dump it is ten.
pub proof fn law_commands(program: Seq<char>, first: Seq<char>, more: Seq<Seq<char>>)
    requires
        first != "read"@ && first != "write"@ && first != "--dump"@,
    ensures
        command_of(seq![]) == CommandView::Help,
        command_of(seq![program]) == CommandView::Help,
        command_of(seq![program, "read"@]) == CommandView::HelpRead,
        more.len() >= 1 ==> command_of(seq![program, "read"@] + more) == (CommandView::Read {
            input: more[0],
            limit: if more.len() == 3 && more[1] == "--limit"@ {
                unsigned_of(more[2], 10, usize::MAX as int)
            } else {
                None
            },
        }),
        command_of(seq![program, "write"@] + more) == if more.len() == 2 {
            CommandView::Write { output: more[0], input: more[1] }
        } else {
            CommandView::HelpWrite
        },
        more.len() != 2 ==> command_of(seq![program, "--dump"@] + more) == CommandView::HelpDump,
        more.len() == 2 ==> {
            &&& command_of(seq![program, "--dump"@] + more) matches CommandView::Dump {
                input,
                count,
            }
            &&& input == more[0]
            &&& unsigned_of(more[1], 10, usize::MAX as int) == Some(count) || (unsigned_of(
                more[1],
                10,
                usize::MAX as int,
            ) is None && count == 10)
        },
        command_of(seq![program, first] + more) == if more.len() == 1 {
            CommandView::Copy { input: first, output: more[0] }
        } else {
            CommandView::HelpCopy
        },
{
    reveal_strlit("read");
    reveal_strlit("write");
    reveal_strlit("--dump");
    assert("read"@[0] == 'r' && "write"@[0] == 'w' && "--dump"@[0] == '-');
}

/// Every command that is not complete is answered with how to ask for it: the program's name
/// and the arguments that it takes. Without any, all four are shown.
#[verifier::rlimit(40)]
pub proof fn law_help(program: Seq<char>)
    ensures
        ({
            let copy = program + " <input.blf> <output.blf>\n"@;
            let dump = program + " --dump <input.blf> <count>\n"@;
            let read = program + " read <input.blf> [--limit N]\n"@;
            let write = program + " write <output.blf> <input.jsonl>\n"@;
            &&& help_of(CommandView::HelpCopy, program) == Some("Usage: "@ + copy)
            &&& help_of(CommandView::HelpDump, program) == Some("Usage: "@ + dump)
            &&& help_of(CommandView::HelpRead, program) == Some("Usage: "@ + read)
            &&& help_of(CommandView::HelpWrite, program) == Some("Usage: "@ + write)
            &&& help_of(CommandView::Help, program) == Some(
                "Usage:\n  "@ + copy + seq![' ', ' '] + dump + seq![' ', ' '] + read + seq![
                    ' ',
                    ' ',
                ] + write,
            )
        }),
{
    let copy = program + " <input.blf> <output.blf>\n"@;
    let dump = program + " --dump <input.blf> <count>\n"@;
    let read = program + " read <input.blf> [--limit N]\n"@;
    let write = program + " write <output.blf> <input.jsonl>\n"@;
    reveal_strlit(" <input.blf> <output.blf>\n");
    reveal_strlit(" <input.blf> <output.blf>\n  ");
    reveal_strlit(" --dump <input.blf> <count>\n");
    reveal_strlit(" --dump <input.blf> <count>\n  ");
    reveal_strlit(" read <input.blf> [--limit N]\n");
    reveal_strlit(" read <input.blf> [--limit N]\n  ");
    assert(" <input.blf> <output.blf>\n  "@ =~= " <input.blf> <output.blf>\n"@ + seq![' ', ' ']);
    assert(" --dump <input.blf> <count>\n  "@ =~= " --dump <input.blf> <count>\n"@ + seq![
        ' ',
        ' ',
    ]);
    assert(" read <input.blf> [--limit N]\n  "@ =~= " read <input.blf> [--limit N]\n"@ + seq![
        ' ',
        ' ',
    ]);
    assert(help_of(CommandView::HelpCopy, program)->0 =~= "Usage: "@ + copy);
    assert(help_of(CommandView::HelpDump, program)->0 =~= "Usage: "@ + dump);
    assert(help_of(CommandView::HelpRead, program)->0 =~= "Usage: "@ + read);
    assert(help_of(CommandView::HelpWrite, program)->0 =~= "Usage: "@ + write);
    assert(help_of(CommandView::Help, program)->0 =~= "Usage:\n  "@ + copy + seq![' ', ' '] + dump
        + seq![' ', ' '] + read + seq![' ', ' '] + write);
}

} // verus!
