//! Errors and outcomes, and the exit codes they map to.
//!
//! - `0`: success
//! - a child's own code: a task's child process failed, its code is passed on
//! - `64`: a runner-level error (config, validation, missing binary, undefined
//!   `$VAR`, rejected mini-shell construct)

use vstd::prelude::*;

verus! {

/// The exit code of every error that is not a task's own child-process failure.
pub const EXIT_RUNNER_ERROR: i32 = 64;

/// A runner-level error. The variant shapes the message only.
#[derive(Debug)]
pub enum TsrError {
    /// Config parse or validation failure.
    Config(String),
    /// A failure found while running.
    Runtime(String),
}

/// What a [`TsrError`] says: its kind and its message.
pub enum ErrorView {
    Config(Seq<char>),
    Runtime(Seq<char>),
}

impl View for TsrError {
    type V = ErrorView;

    open spec fn view(&self) -> ErrorView {
        match self {
            TsrError::Config(m) => ErrorView::Config(m@),
            TsrError::Runtime(m) => ErrorView::Runtime(m@),
        }
    }
}

/// The line shown to the user for an error.
pub open spec fn shown(e: ErrorView) -> Seq<char> {
    match e {
        ErrorView::Config(m) => "✗ config error: "@ + m,
        ErrorView::Runtime(m) => "✗ error: "@ + m,
    }
}

/// What an error says, without the words in front.
pub open spec fn bare(e: ErrorView) -> Seq<char> {
    match e {
        ErrorView::Config(m) => m,
        ErrorView::Runtime(m) => m,
    }
}

impl TsrError {
    /// A config error with this message.
    pub fn config(msg: &str) -> (e: Self)
        ensures
            e@ == ErrorView::Config(msg@),
    {
        TsrError::Config(msg.to_string())
    }

    /// A run-time error with this message.
    pub fn runtime(msg: &str) -> (e: Self)
        ensures
            e@ == ErrorView::Runtime(msg@),
    {
        TsrError::Runtime(msg.to_string())
    }

    /// The process exit code: every runner-level error is `64`.
    pub fn exit_code(&self) -> (code: i32)
        ensures
            code == EXIT_RUNNER_ERROR,
    {
        EXIT_RUNNER_ERROR
    }

    /// What the error says, without the words in front, to be put into another
    /// message.
    pub fn bare_message(&self) -> (s: String)
        ensures
            s@ == bare(self@),
    {
        match self {
            TsrError::Config(m) => m.clone(),
            TsrError::Runtime(m) => m.clone(),
        }
    }

    /// The error as it is shown to the user.
    pub fn message(&self) -> (s: String)
        ensures
            s@ == shown(self@),
    {
        match self {
            TsrError::Config(m) => crate::text::join2("✗ config error: ", m.as_str()),
            TsrError::Runtime(m) => crate::text::join2("✗ error: ", m.as_str()),
        }
    }
}

/// What running the requested tasks came to.
#[derive(Debug, Clone, Copy, PartialEq, Eq, Structural)]
pub enum Outcome {
    Success,
    /// A task's child process exited non-zero, with this code.
    TaskFailed(i32),
}

impl Outcome {
    /// The process exit code of the outcome.
    pub fn exit_code(self) -> (code: i32)
        ensures
            self == Outcome::Success ==> code == 0,
            forall|c: i32| self == Outcome::TaskFailed(c) ==> code == c,
    {
        match self {
            Outcome::Success => 0,
            Outcome::TaskFailed(code) => code,
        }
    }
}

/// An error is shown behind a mark and the word for its kind; what it says is kept whole.
/// The exit code of the runner's own errors is one that it has for nothing else.
pub proof fn law_errors_are_shown(m: Seq<char>)
    ensures
        shown(ErrorView::Config(m)) == "✗ config error: "@ + m,
        shown(ErrorView::Runtime(m)) == "✗ error: "@ + m,
        bare(ErrorView::Config(m)) == m,
        bare(ErrorView::Runtime(m)) == m,
        EXIT_RUNNER_ERROR == 64,
{
}

} // verus!
