//! The error that commands report to the user.

use vstd::prelude::*;

verus! {

/// An error with a message for the user.
pub struct CliError {
    pub message: String,
}

impl CliError {
    /// An error with the given message.
    pub fn new(message: String) -> (e: CliError)
        ensures
            e.message@ == message@,
    {
        CliError { message }
    }

    /// The text shown for the error: its message.
    pub fn to_string(&self) -> (s: String)
        ensures
            s@ == self.message@,
    {
        self.message.clone()
    }
}

} // verus!
