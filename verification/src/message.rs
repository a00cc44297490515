//! The generic response envelope: a single human-readable `message` field,
//! used for the echo response and for every error body.

use vstd::prelude::*;

verus! {

/// Envelope for the echo response and for every error response body.
#[derive(Debug)]
pub struct Message {
    pub message: String,
}

impl Message {
    /// Wraps a borrowed string in a `Message` envelope.
    pub fn from(s: &str) -> (m: Message)
        ensures
            m.message@ == s@,
    {
        Message { message: s.to_owned() }
    }
}

impl PartialEq for Message {
    fn eq(&self, other: &Message) -> (r: bool) {
        self.message == other.message
    }
}

impl vstd::std_specs::cmp::PartialEqSpecImpl for Message {
    open spec fn obeys_eq_spec() -> bool {
        true
    }

    open spec fn eq_spec(&self, other: &Message) -> bool {
        self.message@ == other.message@
    }
}

} // verus!
