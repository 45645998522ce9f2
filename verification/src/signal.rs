//! Signals of the stop protocol and the exit codes that stand for them.

use vstd::prelude::*;
use crate::text::{same_text, to_upper, uppercase_of};

verus! {

/// A signal that the supervisor sends to a process group.
#[derive(Debug, Clone, Copy, PartialEq, Eq, Structural)]
pub enum StopSignal {
    Term,
    Int,
    Quit,
    Usr1,
    /// The forced kill that ends a stop whose window ran out; no program
    /// can declare it.
    Kill,
}

/// The signal that an upper-case name stands for, with or without the
/// prefix `SIG`; any other name stands for `Term`.
pub open spec fn signal_named(upper: Seq<char>) -> StopSignal {
    if upper == "TERM"@ || upper == "SIGTERM"@ {
        StopSignal::Term
    } else if upper == "INT"@ || upper == "SIGINT"@ {
        StopSignal::Int
    } else if upper == "QUIT"@ || upper == "SIGQUIT"@ {
        StopSignal::Quit
    } else if upper == "USR1"@ || upper == "SIGUSR1"@ {
        StopSignal::Usr1
    } else {
        StopSignal::Term
    }
}

/// The signal that a declared name stands for, whatever its case.
pub open spec fn stop_signal_of(name: Seq<char>) -> StopSignal {
    signal_named(uppercase_of(name))
}

/// Reads a signal name that is already in upper case.
pub fn signal_from_upper(upper: &str) -> (signal: StopSignal)
    ensures
        signal == signal_named(upper@),
{
    if same_text(upper, "TERM") || same_text(upper, "SIGTERM") {
        StopSignal::Term
    } else if same_text(upper, "INT") || same_text(upper, "SIGINT") {
        StopSignal::Int
    } else if same_text(upper, "QUIT") || same_text(upper, "SIGQUIT") {
        StopSignal::Quit
    } else if same_text(upper, "USR1") || same_text(upper, "SIGUSR1") {
        StopSignal::Usr1
    } else {
        StopSignal::Term
    }
}

/// Reads the stop signal that a program declares.
pub fn stop_signal(name: &str) -> (signal: StopSignal)
    ensures
        signal == stop_signal_of(name@),
{
    let upper = to_upper(name);
    signal_from_upper(upper.as_str())
}

/// The exit code that stands for termination by signal number `signal`.
pub fn signal_exit_code(signal: u8) -> (code: u32)
    ensures
        code == 128 + signal,
{
    128u32 + signal as u32
}

} // verus!
