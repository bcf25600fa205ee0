//! The one error type of the library: a message for the user.

use vstd::prelude::*;

verus! {

/// What went wrong, in words.
#[derive(Debug)]
pub struct Error(pub String);

impl Error {
    /// The message.
    pub open spec fn text(&self) -> Seq<char> {
        self.0@
    }

    /// The message, as it is shown to the user and written into replies.
    pub fn message(&self) -> (r: &str)
        ensures
            r@ == self.text(),
    {
        self.0.as_str()
    }
}

/// An error says all of its text, and nothing else.
pub proof fn an_error_says_its_text(e: Error)
    ensures
        e.text() == e.0@,
{
}

}
