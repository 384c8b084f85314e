//! The failure modes of configuration loading, merging, lookup and
//! execution. Every error is terminal for the current invocation.

use vstd::prelude::*;

verus! {

/// Ghost mirror of [`HumorError`], with string payloads abstracted to
/// character sequences, used by the contracts of the whole library.
pub ghost enum ErrorView {
    /// A configuration document (the user's, the default one, or an
    /// import) could not be read; carries the path that was tried.
    FileNotFound(Seq<char>),
    /// The document's format could not be parsed; carries the message of
    /// the underlying format error.
    ParseError(Seq<char>),
    /// A merge found a command that already exists: the identity of a
    /// command for duplicate detection is its (domain, name) pair, the
    /// category deliberately left out.
    DuplicateCommand { domain: Seq<char>, command: Seq<char> },
    /// No command answers the requested address; carries the label that
    /// was looked up (bare name, "domain.name" or "domain.category.name").
    CommandNotFound(Seq<char>),
    /// The argument list has an arity outside 1..=3.
    InvalidCommandStructure,
    /// The resolved shell command ran and exited with failure.
    CommandExecutionFailed,
}

/// An error of the command-resolution engine.
#[derive(Debug, Clone, PartialEq, Eq)]
pub enum HumorError {
    FileNotFound(String),
    ParseError(String),
    DuplicateCommand { domain: String, command: String },
    CommandNotFound(String),
    InvalidCommandStructure,
    CommandExecutionFailed,
}

impl View for HumorError {
    type V = ErrorView;

    open spec fn view(&self) -> ErrorView {
        match self {
            HumorError::FileNotFound(p) => ErrorView::FileNotFound(p@),
            HumorError::ParseError(m) => ErrorView::ParseError(m@),
            HumorError::DuplicateCommand { domain, command } => ErrorView::DuplicateCommand {
                domain: domain@,
                command: command@,
            },
            HumorError::CommandNotFound(l) => ErrorView::CommandNotFound(l@),
            HumorError::InvalidCommandStructure => ErrorView::InvalidCommandStructure,
            HumorError::CommandExecutionFailed => ErrorView::CommandExecutionFailed,
        }
    }
}

/// What [`HumorError::message`] returns for each variant.
pub open spec fn message_view(e: ErrorView) -> Seq<char> {
    match e {
        ErrorView::FileNotFound(p) => "File not found: "@ + p,
        ErrorView::ParseError(m) => "YAML parsing error: "@ + m,
        ErrorView::DuplicateCommand { domain, command } => "Duplicate command found: "@ + domain
            + "."@ + command,
        ErrorView::CommandNotFound(l) => "Command not found: "@ + l,
        ErrorView::InvalidCommandStructure => "Invalid command structure"@,
        ErrorView::CommandExecutionFailed => "Command execution failed"@,
    }
}

impl HumorError {
    /// A human-readable description of the error, for reporting at the
    /// top level before a non-zero exit.
    pub fn message(&self) -> (r: String)
        ensures
            r@ == message_view(self@),
    {
        match self {
            HumorError::FileNotFound(p) => String::from_str("File not found: ").concat(
                p.as_str(),
            ),
            HumorError::ParseError(m) => String::from_str("YAML parsing error: ").concat(
                m.as_str(),
            ),
            HumorError::DuplicateCommand { domain, command } => String::from_str(
                "Duplicate command found: ",
            ).concat(domain.as_str()).concat(".").concat(command.as_str()),
            HumorError::CommandNotFound(l) => String::from_str("Command not found: ").concat(
                l.as_str(),
            ),
            HumorError::InvalidCommandStructure => String::from_str("Invalid command structure"),
            HumorError::CommandExecutionFailed => String::from_str("Command execution failed"),
        }
    }
}

} // verus!
