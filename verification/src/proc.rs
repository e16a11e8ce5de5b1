//! What a run does to the processes it starts: whether they are isolated, and
//! which exit code a process that ended stands for.

use vstd::prelude::*;

verus! {

/// The exit code of a run that was cut short by an interrupt.
pub const EXIT_INTERRUPTED: i32 = 130;

/// How long the first wait for a child takes, in microseconds.
pub const POLL_MIN: u64 = 100;

/// How long a wait for a child takes at most, in microseconds.
pub const POLL_MAX: u64 = 20_000;

/// How long a process tree that was told to end gets, in milliseconds.
pub const GRACE: u64 = 2_000;

/// Whether a child gets a process group (or job object) of its own.
#[derive(Debug, Clone, Copy, PartialEq, Eq, Structural)]
pub enum Isolation {
    /// A group of its own: ending it reaches all it started.
    Isolated,
    /// The group of the runner itself: ending it reaches the child only, and the
    /// child can read from the terminal.
    Inherited,
}

/// Isolation is withheld only where it would cost a task its terminal and could
/// gain nothing: stdin is a terminal and nothing in the run is parallel, so that
/// nothing can abort a child that is running.
pub fn isolation(stdin_is_terminal: bool, parallel: bool) -> (r: Isolation)
    ensures
        r == if stdin_is_terminal && !parallel {
            Isolation::Inherited
        } else {
            Isolation::Isolated
        },
{
    if stdin_is_terminal && !parallel {
        Isolation::Inherited
    } else {
        Isolation::Isolated
    }
}

/// How long to wait for a child the next time: twice as long, up to a limit.
pub fn next_wait(wait: u64) -> (r: u64)
    ensures
        r == if wait >= POLL_MAX / 2 {
            POLL_MAX as int
        } else {
            2 * wait
        },
{
    if wait >= POLL_MAX / 2 {
        POLL_MAX
    } else {
        2 * wait
    }
}

/// The exit code a process that ended stands for: its own, or 128 and the signal
/// that ended it.
pub open spec fn exit_code(code: Option<i32>, signal: Option<u8>) -> int {
    match code {
        Some(c) => c as int,
        None => match signal {
            Some(s) => 128 + s,
            None => 128,
        },
    }
}

/// The exit code a process that ended stands for.
pub fn exit_code_of(code: Option<i32>, signal: Option<u8>) -> (r: i32)
    ensures
        r == exit_code(code, signal),
{
    match code {
        Some(c) => c,
        None => match signal {
            Some(s) => 128 + s as i32,
            None => 128,
        },
    }
}

/// The exit code of a process is the one it gave; one that a signal ended has none of its
/// own and counts by the signal.
pub proof fn law_exit_codes(code: i32, signal: u8)
    ensures
        exit_code(Some(code), None) == code,
        exit_code(Some(code), Some(signal)) == code,
        exit_code(None, Some(signal)) == 128 + signal,
        exit_code(None, None) == 128,
{
}

} // verus!
