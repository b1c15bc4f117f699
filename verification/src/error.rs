//! What is reported when something cannot be done.

use vstd::prelude::*;

use crate::text;

verus! {

/// A failure, with the message that is shown for it.
#[derive(Debug)]
pub struct Error {
    /// The message.
    pub message: String,
}

impl View for Error {
    type V = Seq<char>;

    open spec fn view(&self) -> Seq<char> {
        self.message@
    }
}

/// The failure with the message `msg`.
pub fn err(msg: &str) -> (e: Error)
    ensures
        e@ == msg@,
{
    Error { message: text::owned(msg) }
}

} // verus!
