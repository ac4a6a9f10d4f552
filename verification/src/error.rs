//! The errors of the store, of the wire codec and of the server.

use vstd::prelude::*;
use vstd::string::*;

verus! {

/// What makes a request or a reply unreadable.
#[derive(Debug, Clone, Copy, PartialEq, Eq, Structural)]
pub enum ParseError {
    /// The first character is none of `*`, `+`, `-` and `:`.
    UnknownPrefix,
    /// The input ends before the `\r\n` that closes a line.
    MissingTerminator,
    /// A `\r` or a `\n` stands in a line where `\r\n` does not follow.
    StrayLineBreak,
    /// A number is no decimal `i64`, or the count of a request is no digit.
    BadInteger,
    /// The verb is none of `GET`, `SET` and `DEL`.
    UnsupportedVerb,
}

/// What an operation of the store or of the server can fail with.
#[derive(Debug, Clone, PartialEq, Eq)]
pub enum KvsError {
    /// The key to remove is not in the store.
    KeyNotFoundError,
    /// A request or a reply could not be read, or a record is no `Set` record
    /// where one is expected.
    InvalidCommandError,
    /// A file or a socket failed; the text says how.
    IOError(String),
    /// The log does not consist of whole records.
    Corruption,
}

impl KvsError {
    /// The text of the error, as a client sees it.
    pub open spec fn message_spec(self) -> Seq<char> {
        match self {
            KvsError::KeyNotFoundError => "Key not found"@,
            KvsError::InvalidCommandError => "Invalid command"@,
            KvsError::IOError(text) => "Io error: "@ + text@,
            KvsError::Corruption => "Corrupted log"@,
        }
    }

    /// The text of the error, as a client sees it.
    pub fn message(&self) -> (text: String)
        ensures
            text@ == self.message_spec(),
    {
        match self {
            KvsError::KeyNotFoundError => "Key not found".to_string(),
            KvsError::InvalidCommandError => "Invalid command".to_string(),
            KvsError::IOError(text) => {
                let mut out = "Io error: ".to_string();
                out.append(text.as_str());
                out
            },
            KvsError::Corruption => "Corrupted log".to_string(),
        }
    }
}

} // verus!
