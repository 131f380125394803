//! The one error type of the harness.

use vstd::prelude::*;
use vstd::string::*;

verus! {

/// What can go wrong in the harness, by kind, with a message for the user.
#[derive(Debug)]
pub enum RunnerError {
    /// A process could not be started, read, written or stopped.
    Io(String),
    /// A line of text is not what the protocol allows.
    Parse(String),
    /// A channel between threads is closed or timed out.
    Chan(String),
    /// A background thread panicked.
    Join,
}

/// A `RunnerError` with its message as a sequence of characters.
pub enum ErrorView {
    Io(Seq<char>),
    Parse(Seq<char>),
    Chan(Seq<char>),
    Join,
}

impl View for RunnerError {
    type V = ErrorView;

    open spec fn view(&self) -> ErrorView {
        match self {
            RunnerError::Io(msg) => ErrorView::Io(msg@),
            RunnerError::Parse(msg) => ErrorView::Parse(msg@),
            RunnerError::Chan(msg) => ErrorView::Chan(msg@),
            RunnerError::Join => ErrorView::Join,
        }
    }
}

impl DeepView for RunnerError {
    type V = ErrorView;

    open spec fn deep_view(&self) -> ErrorView {
        self@
    }
}

/// The text that `to_string` gives for an error.
pub open spec fn error_text(e: ErrorView) -> Seq<char> {
    match e {
        ErrorView::Io(msg) => "io error: "@ + msg,
        ErrorView::Parse(msg) => "parse error: "@ + msg,
        ErrorView::Chan(msg) => "chan error: "@ + msg,
        ErrorView::Join => "thread join error"@,
    }
}

impl RunnerError {
    /// The error as one line for the user: its kind, then its message.
    pub fn to_string(&self) -> (text: String)
        ensures
            text@ == error_text(self@),
    {
        match self {
            RunnerError::Io(msg) => String::from_str("io error: ").concat(msg.as_str()),
            RunnerError::Parse(msg) => String::from_str("parse error: ").concat(msg.as_str()),
            RunnerError::Chan(msg) => String::from_str("chan error: ").concat(msg.as_str()),
            RunnerError::Join => String::from_str("thread join error"),
        }
    }
}

impl Clone for RunnerError {
    fn clone(&self) -> (r: Self)
        ensures
            r@ == self@,
    {
        match self {
            RunnerError::Io(msg) => RunnerError::Io(msg.clone()),
            RunnerError::Parse(msg) => RunnerError::Parse(msg.clone()),
            RunnerError::Chan(msg) => RunnerError::Chan(msg.clone()),
            RunnerError::Join => RunnerError::Join,
        }
    }
}

impl PartialEq for RunnerError {
    fn eq(&self, other: &Self) -> (r: bool) {
        match (self, other) {
            (RunnerError::Io(a), RunnerError::Io(b)) => *a == *b,
            (RunnerError::Parse(a), RunnerError::Parse(b)) => *a == *b,
            (RunnerError::Chan(a), RunnerError::Chan(b)) => *a == *b,
            (RunnerError::Join, RunnerError::Join) => true,
            _ => false,
        }
    }
}

impl vstd::std_specs::cmp::PartialEqSpecImpl for RunnerError {
    open spec fn obeys_eq_spec() -> bool {
        true
    }

    open spec fn eq_spec(&self, other: &Self) -> bool {
        self@ == other@
    }
}

} // verus!
