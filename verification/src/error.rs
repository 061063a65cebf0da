//! What can go wrong with a list.

use vstd::prelude::*;
use vstd::string::StringExecFns;

verus! {

/// The kinds of failure of the operations on a list.
#[derive(Clone, Copy, Debug, PartialEq, Eq, Structural)]
pub enum ErrorKind {
    /// The place that holds the list could not be read or written.
    Io,
    /// The list was to be saved and is bound to no place.
    NotBound,
    /// No task of the list has the identifier that was given.
    NotFound,
}

impl ErrorKind {
    /// The message of the failure, as a sequence of characters.
    pub open spec fn message_text(self) -> Seq<char> {
        match self {
            ErrorKind::Io => "Todo file could not be read or written"@,
            ErrorKind::NotBound => "no file path set"@,
            ErrorKind::NotFound => "Todo not found"@,
        }
    }

    /// The message of the failure.
    pub fn message(&self) -> (text: String)
        ensures
            text@ == self.message_text(),
    {
        match self {
            ErrorKind::Io => String::from_str("Todo file could not be read or written"),
            ErrorKind::NotBound => String::from_str("no file path set"),
            ErrorKind::NotFound => String::from_str("Todo not found"),
        }
    }
}

} // verus!
