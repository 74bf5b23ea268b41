//! The ways in which a command can fail.

use crate::table::Text;
use vstd::prelude::*;
use vstd::string::StringExecFns;

verus! {

/// The line that tells how the program is called.
pub const USAGE: &'static str = "Usage: ./kvstore [PUT|GET|SHOW|DROP] KEY VALUE";

/// Why a command was not carried out. Each of them ends the run; none is
/// retried.
#[derive(Clone, Copy, Debug, PartialEq, Eq, Structural)]
pub enum Error {
    /// The command name, or an argument that the command needs, is absent.
    MissingArgument,
    /// The key that was asked for, or was to be removed, is not stored.
    KeyNotFound,
    /// A line of the saved text holds no tab between key and value.
    CorruptData,
}

impl Error {
    /// The message that goes with the failure.
    pub open spec fn text(self) -> Text {
        match self {
            Error::MissingArgument => USAGE@,
            Error::KeyNotFound => "Key not found."@,
            Error::CorruptData => "Corrupt Database"@,
        }
    }

    /// The message that goes with the failure.
    pub fn message(&self) -> (out: String)
        ensures
            out@ == self.text(),
    {
        match self {
            Error::MissingArgument => String::from_str(USAGE),
            Error::KeyNotFound => String::from_str("Key not found."),
            Error::CorruptData => String::from_str("Corrupt Database"),
        }
    }
}

} // verus!
