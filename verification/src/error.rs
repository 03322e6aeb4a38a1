//! The failures that registration, dispatch and export report.

use vstd::prelude::*;
use vstd::string::StringExecFns;

verus! {

/// What went wrong, with the name that it went wrong for.
#[derive(Debug)]
pub enum ExportError {
    /// The constant of this name has no representation in the interchange
    /// format.
    ValueEncoding(String),
    /// No command is registered under this wire name.
    UnknownCommand(String),
    /// The type of this name is referred to but was never registered.
    RenderInconsistency(String),
    /// The type of this name was registered before with another definition.
    TypeCollision(String),
    /// A command or an event of this name is already in the set.
    DuplicateName(String),
}

/// The mathematical model of an [`ExportError`].
pub enum Failure {
    ValueEncoding(Seq<char>),
    UnknownCommand(Seq<char>),
    RenderInconsistency(Seq<char>),
    TypeCollision(Seq<char>),
    DuplicateName(Seq<char>),
}

impl View for ExportError {
    type V = Failure;

    open spec fn view(&self) -> Failure {
        match self {
            ExportError::ValueEncoding(name) => Failure::ValueEncoding(name@),
            ExportError::UnknownCommand(name) => Failure::UnknownCommand(name@),
            ExportError::RenderInconsistency(name) => Failure::RenderInconsistency(name@),
            ExportError::TypeCollision(name) => Failure::TypeCollision(name@),
            ExportError::DuplicateName(name) => Failure::DuplicateName(name@),
        }
    }
}

impl ExportError {
    /// The name that the failure is about.
    pub open spec fn subject(self) -> Seq<char> {
        match self {
            ExportError::ValueEncoding(name) => name@,
            ExportError::UnknownCommand(name) => name@,
            ExportError::RenderInconsistency(name) => name@,
            ExportError::TypeCollision(name) => name@,
            ExportError::DuplicateName(name) => name@,
        }
    }

    /// What a message says before it gives the name.
    pub open spec fn reason(self) -> Seq<char> {
        match self {
            ExportError::ValueEncoding(_) => "failed to serialize constant: "@,
            ExportError::UnknownCommand(_) => "no such command: "@,
            ExportError::RenderInconsistency(_) => "type referenced but never registered: "@,
            ExportError::TypeCollision(_) => "type registered with two definitions: "@,
            ExportError::DuplicateName(_) => "name registered twice: "@,
        }
    }

    /// A line of text for the failure: the reason, then the name.
    pub fn message(&self) -> (text: String)
        ensures
            text@ == self.reason() + self.subject(),
    {
        match self {
            ExportError::ValueEncoding(name) => {
                String::from_str("failed to serialize constant: ").concat(name.as_str())
            },
            ExportError::UnknownCommand(name) => {
                String::from_str("no such command: ").concat(name.as_str())
            },
            ExportError::RenderInconsistency(name) => {
                String::from_str("type referenced but never registered: ").concat(name.as_str())
            },
            ExportError::TypeCollision(name) => {
                String::from_str("type registered with two definitions: ").concat(name.as_str())
            },
            ExportError::DuplicateName(name) => {
                String::from_str("name registered twice: ").concat(name.as_str())
            },
        }
    }
}

} // verus!
