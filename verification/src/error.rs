//! The error that the mixer reports with a free-form message.

use vstd::prelude::*;

verus! {

/// An error carrying a message.
pub struct MyError {
    pub message: String,
}

impl MyError {
    /// The text the error shows to a user: `MyError: ` and the message.
    pub fn display_text(&self) -> (s: String)
        ensures
            s@ == "MyError: "@ + self.message@,
    {
        let mut s = String::from_str("MyError: ");
        s.append(self.message.as_str());
        s
    }

    /// The text the error shows when debugging:
    /// `MyError { message: ` and the message and ` }`.
    pub fn debug_text(&self) -> (s: String)
        ensures
            s@ == "MyError { message: "@ + self.message@ + " }"@,
    {
        let mut s = String::from_str("MyError { message: ");
        s.append(self.message.as_str());
        s.append(" }");
        s
    }
}

} // verus!
