//! The payload of the question bridge: an outside process asks the user
//! something and awaits the answer.  The transport that carries it — HTTP,
//! events, timeouts — stays with the caller; the store knows nothing of it.

use vstd::prelude::*;

verus! {

/// A request for user input: the message to show, and optional choices to
/// offer.
pub struct UserInputRequest {
    pub message: String,
    pub options: Option<Vec<String>>,
}

impl UserInputRequest {
    /// A request that shows `message` with no preset choices.
    pub fn new(message: String) -> (r: UserInputRequest)
        ensures
            r.message@ == message@,
            r.options is None,
    {
        UserInputRequest { message, options: None }
    }
}

} // verus!
