//! The structured error object that crosses the middleware boundary.

use vstd::prelude::*;

verus! {

/// The only structured error type that middleware and handlers exchange:
/// a numeric HTTP status code, a message, and a flag saying whether the
/// message is safe to expose to the caller or must be masked.
#[derive(Clone, Debug)]
pub struct Status {
    /// The numeric HTTP status code.
    pub code: u16,
    /// The message carried with the status.
    pub message: String,
    /// Whether the message may be shown to the caller; when false, a
    /// generic message is substituted in the final response.
    pub expose: bool,
}

impl Status {
    /// Builds a status from its three parts.
    pub fn new(code: u16, message: String, expose: bool) -> (s: Status)
        ensures
            s.code == code,
            s.message == message,
            s.expose == expose,
    {
        Status { code, message, expose }
    }
}

} // verus!
