//! The one error type that every fallible operation reports.

use vstd::prelude::*;

verus! {

/// A failure, carried as the text that is shown to the user.
#[derive(Debug)]
pub struct OverlordError {
    pub message: String,
}

impl OverlordError {
    /// The text to show to a person; this consumes the error.
    pub fn human_error(self) -> (text: String)
        ensures
            text == self.message,
    {
        self.message
    }

    /// An error that carries exactly `message`.
    pub fn new(message: String) -> (error: OverlordError)
        ensures
            error.message == message,
    {
        OverlordError { message }
    }
}

pub type OverlordResult<T> = Result<T, OverlordError>;

} // verus!
