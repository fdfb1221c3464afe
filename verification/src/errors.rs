//! The ways a todo operation can fail.

use vstd::prelude::*;

verus! {

/// Every failure an operation can end with.  All of them are terminal: the
/// current operation is abandoned and the error is reported to the caller.
#[derive(Debug, PartialEq, Eq)]
pub enum TodoError {
    /// The command verb is neither `list` nor `add`.
    InvalidCommand,
    /// No verb was given, or `add` was given without text for the new entry.
    NotEnoughArguments,
    /// The store file could not be opened, read or written; the payload is
    /// the underlying error's message, supplied by the caller who did the
    /// file work.
    IoError(String),
    /// A stored line's leading token is not a valid decimal integer.
    ParseError,
}

/// The mathematical stand-in for a [`TodoError`].
pub enum ErrorModel {
    InvalidCommand,
    NotEnoughArguments,
    IoError(Seq<char>),
    ParseError,
}

impl View for TodoError {
    type V = ErrorModel;

    open spec fn view(&self) -> ErrorModel {
        match self {
            TodoError::InvalidCommand => ErrorModel::InvalidCommand,
            TodoError::NotEnoughArguments => ErrorModel::NotEnoughArguments,
            TodoError::IoError(m) => ErrorModel::IoError(m@),
            TodoError::ParseError => ErrorModel::ParseError,
        }
    }
}

impl TodoError {
    /// The error message to report for this failure.
    pub fn message(&self) -> (r: String)
        ensures
            r@ == self.message_spec(),
    {
        match self {
            TodoError::InvalidCommand => "Invalid command".to_owned(),
            TodoError::NotEnoughArguments => "Not enough arguments".to_owned(),
            TodoError::IoError(m) => m.clone(),
            TodoError::ParseError => "Parse error".to_owned(),
        }
    }

    /// The message each failure is reported with.
    pub open spec fn message_spec(&self) -> Seq<char> {
        match self {
            TodoError::InvalidCommand => "Invalid command"@,
            TodoError::NotEnoughArguments => "Not enough arguments"@,
            TodoError::IoError(m) => m@,
            TodoError::ParseError => "Parse error"@,
        }
    }
}

} // verus!
