//! The control shell's language: commands, completion, and the tail of
//! the log.

use vstd::prelude::*;
use vstd::string::{StrSliceExecFns, StringExecFns};
use crate::text::{same_text, trim_text, trimmed_text};

verus! {

/// A command of the control shell.
#[derive(Debug, PartialEq, Eq)]
pub enum Command {
    /// List the programs and their replica counts.
    Status,
    /// Read the configuration again and reconcile.
    Reload,
    /// Start the replicas of the named program.
    Start(String),
    /// Stop the replicas of the named program.
    Stop(String),
    /// Leave the shell.
    Exit,
    /// Show the end of today's log.
    Tail,
    /// List the commands.
    Help,
    /// Anything else, as it was typed.
    Unknown(String),
}

/// The mathematical content of a [`Command`].
pub enum CommandView {
    Status,
    Reload,
    Start(Seq<char>),
    Stop(Seq<char>),
    Exit,
    Tail,
    Help,
    Unknown(Seq<char>),
}

impl DeepView for Command {
    type V = CommandView;

    open spec fn deep_view(&self) -> CommandView {
        match self {
            Command::Status => CommandView::Status,
            Command::Reload => CommandView::Reload,
            Command::Start(name) => CommandView::Start(name@),
            Command::Stop(name) => CommandView::Stop(name@),
            Command::Exit => CommandView::Exit,
            Command::Tail => CommandView::Tail,
            Command::Help => CommandView::Help,
            Command::Unknown(text) => CommandView::Unknown(text@),
        }
    }
}

/// Whether `text` begins with `prefix`.
pub open spec fn starts_with(text: Seq<char>, prefix: Seq<char>) -> bool {
    prefix.len() <= text.len() && text.take(prefix.len() as int) == prefix
}

/// The command that an input line without surrounding white space stands
/// for. Command words are case-sensitive; `start` and `stop` take the
/// rest of the line, trimmed, as the program name.
pub open spec fn command_of(input: Seq<char>) -> CommandView {
    if input == "status"@ {
        CommandView::Status
    } else if input == "reload"@ {
        CommandView::Reload
    } else if starts_with(input, "start "@) {
        CommandView::Start(trimmed_text(input.skip("start "@.len() as int)))
    } else if starts_with(input, "stop "@) {
        CommandView::Stop(trimmed_text(input.skip("stop "@.len() as int)))
    } else if input == "exit"@ {
        CommandView::Exit
    } else if input == "tail"@ {
        CommandView::Tail
    } else if input == "help"@ {
        CommandView::Help
    } else {
        CommandView::Unknown(input)
    }
}

/// What follows `prefix` in `text`, if `text` begins with it.
pub fn after_prefix<'a>(text: &'a str, prefix: &str) -> (rest: Option<&'a str>)
    ensures
        rest is Some == starts_with(text@, prefix@),
        rest matches Some(tail) ==> tail@ == text@.skip(prefix@.len() as int),
{
    let n = prefix.unicode_len();
    let len = text.unicode_len();
    if len < n {
        return None;
    }
    let head = text.substring_char(0, n);
    assert(head@ =~= text@.take(n as int));
    if same_text(head, prefix) {
        let tail = text.substring_char(n, len);
        assert(tail@ =~= text@.skip(n as int));
        Some(tail)
    } else {
        None
    }
}

/// Reads a command from an input line that has no surrounding white space.
pub fn command_from_trimmed(input: &str) -> (command: Command)
    ensures
        command.deep_view() == command_of(input@),
{
    if same_text(input, "status") {
        return Command::Status;
    }
    if same_text(input, "reload") {
        return Command::Reload;
    }
    if let Some(rest) = after_prefix(input, "start ") {
        return Command::Start(trim_text(rest));
    }
    if let Some(rest) = after_prefix(input, "stop ") {
        return Command::Stop(trim_text(rest));
    }
    if same_text(input, "exit") {
        Command::Exit
    } else if same_text(input, "tail") {
        Command::Tail
    } else if same_text(input, "help") {
        Command::Help
    } else {
        Command::Unknown(input.to_owned())
    }
}

/// Reads the command that a line of input stands for, white space around
/// it aside.
pub fn parse_command(line: &str) -> (command: Command)
    ensures
        command.deep_view() == command_of(trimmed_text(line@)),
{
    let input = trim_text(line);
    command_from_trimmed(input.as_str())
}

/// The candidates for completing `line`: the commands that begin with it,
/// in their order.
pub open spec fn completions(commands: Seq<Seq<char>>, line: Seq<char>) -> Seq<Seq<char>> {
    commands.filter(|word: Seq<char>| starts_with(word, line))
}

/// Offers the commands that begin with what was typed so far.
pub fn complete(commands: &Vec<String>, line: &str) -> (matches: Vec<String>)
    ensures
        matches.deep_view() == completions(commands.deep_view(), line@),
{
    let ghost fits = |word: Seq<char>| starts_with(word, line@);
    let ghost words = commands.deep_view();
    let mut matches: Vec<String> = Vec::new();
    let mut i: usize = 0;
    assert(words.take(0) =~= Seq::<Seq<char>>::empty());
    assert(matches.deep_view() =~= words.take(0).filter(fits)) by {
        reveal(Seq::filter);
    }
    while i < commands.len()
        invariant
            i <= commands.len(),
            words == commands.deep_view(),
            fits == (|word: Seq<char>| starts_with(word, line@)),
            matches.deep_view() == words.take(i as int).filter(fits),
        decreases commands.len() - i,
    {
        let ghost earlier = matches.deep_view();
        let word = &commands[i];
        proof {
            reveal(Seq::filter);
            assert(words.take(i + 1).drop_last() =~= words.take(i as int));
            assert(words.take(i + 1).last() == word@);
        }
        if after_prefix(word.as_str(), line).is_some() {
            matches.push(word.clone());
            assert(matches.deep_view() =~= earlier.push(word@));
        }
        i += 1;
    }
    assert(words.take(i as int) =~= words);
    matches
}

/// How many lines of the log `tail` shows.
pub const TAIL_LINES: usize = 10;

/// The last lines of the log that `tail` shows: the last ten, or all of
/// them if there are fewer.
pub open spec fn tail_of(lines: Seq<Seq<char>>) -> Seq<Seq<char>> {
    if lines.len() <= TAIL_LINES {
        lines
    } else {
        lines.skip(lines.len() - TAIL_LINES)
    }
}

/// Picks the lines that `tail` shows.
pub fn last_lines(lines: &Vec<String>) -> (shown: Vec<String>)
    ensures
        shown.deep_view() == tail_of(lines.deep_view()),
{
    let start: usize = if lines.len() <= TAIL_LINES {
        0
    } else {
        lines.len() - TAIL_LINES
    };
    let mut shown: Vec<String> = Vec::new();
    let mut i: usize = start;
    while i < lines.len()
        invariant
            start <= i <= lines.len(),
            shown.len() == i - start,
            forall|j: int| 0 <= j < i - start ==> shown[j]@ == lines[start + j]@,
        decreases lines.len() - i,
    {
        shown.push(lines[i].clone());
        i += 1;
    }
    assert(shown.deep_view() =~= lines.deep_view().skip(start as int));
    assert(lines.deep_view().skip(0) =~= lines.deep_view());
    shown
}

/// The path of the log file of the day `today`, written as year, month
/// and day.
pub fn log_path(today: &str) -> (path: String)
    ensures
        path@ == "logs/supervisor.log."@ + today@,
{
    let mut path = String::from_str("logs/supervisor.log.");
    path.append(today);
    path
}

} // verus!
