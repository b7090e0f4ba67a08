//! The refusal vocabulary: what went wrong, in which class, and what to do next.

use vstd::prelude::*;
use vstd::string::*;

verus! {

/// The class of a refusal. It decides the process exit code.
#[derive(Debug, Clone, Copy, PartialEq, Eq, Structural)]
pub enum ErrorKind {
    Usage,
    Stale,
    ScopeDrift,
    JournalBlocked,
    NotFound,
    Ambiguous,
    Overlap,
    Malformed,
    Toctou,
    Budget,
    Io,
}

impl ErrorKind {
    /// The kebab-case label that starts every rendered refusal.
    pub open spec fn label_text(self) -> Seq<char> {
        match self {
            ErrorKind::Usage => "usage"@,
            ErrorKind::Stale => "stale"@,
            ErrorKind::ScopeDrift => "scope-drift"@,
            ErrorKind::JournalBlocked => "journal-blocked"@,
            ErrorKind::NotFound => "not-found"@,
            ErrorKind::Ambiguous => "ambiguous"@,
            ErrorKind::Overlap => "overlap"@,
            ErrorKind::Malformed => "malformed"@,
            ErrorKind::Toctou => "toctou"@,
            ErrorKind::Budget => "budget"@,
            ErrorKind::Io => "io"@,
        }
    }

    /// The label of the class.
    pub fn label(self) -> (label: &'static str)
        ensures
            label@ == self.label_text(),
    {
        match self {
            ErrorKind::Usage => "usage",
            ErrorKind::Stale => "stale",
            ErrorKind::ScopeDrift => "scope-drift",
            ErrorKind::JournalBlocked => "journal-blocked",
            ErrorKind::NotFound => "not-found",
            ErrorKind::Ambiguous => "ambiguous",
            ErrorKind::Overlap => "overlap",
            ErrorKind::Malformed => "malformed",
            ErrorKind::Toctou => "toctou",
            ErrorKind::Budget => "budget",
            ErrorKind::Io => "io",
        }
    }

    /// The exit code of the class: the four classes a caller branches on have their own
    /// code, every other one is 1.
    pub open spec fn code(self) -> i32 {
        match self {
            ErrorKind::Usage => 2,
            ErrorKind::Stale => 3,
            ErrorKind::ScopeDrift => 4,
            ErrorKind::JournalBlocked => 5,
            _ => 1,
        }
    }
}

/// A refusal: its class, what happened, and (where there is one) the command to run next.
#[derive(Debug, Clone)]
pub struct VcError {
    pub kind: ErrorKind,
    pub message: String,
    pub next: Option<String>,
}

/// What a command of the library returns.
pub type VcResult<T> = Result<T, VcError>;

/// What a [`VcError`] says.
pub struct ErrorView {
    pub kind: ErrorKind,
    pub message: Seq<char>,
    pub next: Option<Seq<char>>,
}

/// The view of an optional text.
pub open spec fn opt_text(t: Option<String>) -> Option<Seq<char>> {
    match t {
        Some(s) => Some(s@),
        None => None,
    }
}

impl View for VcError {
    type V = ErrorView;

    open spec fn view(&self) -> ErrorView {
        ErrorView { kind: self.kind, message: self.message@, next: opt_text(self.next) }
    }
}

/// A refusal without a next step.
pub open spec fn refusal(kind: ErrorKind, message: Seq<char>) -> ErrorView {
    ErrorView { kind, message, next: None }
}

/// A refusal with a next step.
pub open spec fn refusal_next(kind: ErrorKind, message: Seq<char>, next: Seq<char>) -> ErrorView {
    ErrorView { kind, message, next: Some(next) }
}

impl VcError {
    /// A refusal without a next step.
    pub fn new(kind: ErrorKind, message: String) -> (e: Self)
        ensures
            e@ == refusal(kind, message@),
    {
        VcError { kind, message, next: None }
    }

    /// The same refusal with `next` as its next step.
    pub fn with_next(self, next: String) -> (e: Self)
        ensures
            e@ == refusal_next(self.kind, self.message@, next@),
    {
        VcError { kind: self.kind, message: self.message, next: Some(next) }
    }

    /// The exit code of the refusal's class.
    pub fn exit_code(&self) -> (code: i32)
        ensures
            code == self.kind.code(),
    {
        match self.kind {
            ErrorKind::Usage => 2,
            ErrorKind::Stale => 3,
            ErrorKind::ScopeDrift => 4,
            ErrorKind::JournalBlocked => 5,
            _ => 1,
        }
    }

    /// The one-line rendering `<label>: <message>[ — next: <next>]`.
    pub fn to_string(&self) -> (line: String)
        ensures
            line@ == error_line(self@),
    {
        let mut line: String = self.kind.label().to_owned();
        line.append(": ");
        line.append(self.message.as_str());
        match &self.next {
            Some(n) => {
                line.append(" — next: ");
                line.append(n.as_str());
            },
            None => {},
        }
        line
    }
}

/// The one-line rendering of a refusal.
pub open spec fn error_line(e: ErrorView) -> Seq<char> {
    let head = e.kind.label_text() + ": "@ + e.message;
    match e.next {
        Some(n) => head + " — next: "@ + n,
        None => head,
    }
}

/// Only the four branch-worthy classes leave the shared exit code 1, and each has a code
/// of its own.
pub proof fn law_exit_codes_tell_the_branching_classes_apart(a: ErrorKind, b: ErrorKind)
    ensures
        1 <= a.code() <= 5,
        a.code() == b.code() && a.code() != 1 ==> a == b,
{
}

} // verus!
