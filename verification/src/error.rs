//! What goes wrong: a message for a person, and whether a later attempt
//! might not meet it.

use vstd::prelude::*;

verus! {

/// What an error says, and whether trying again is worth it.
pub struct Fault {
    pub message: Seq<char>,
    pub retryable: bool,
}

/// An error of the transport.
#[derive(Clone, Debug, PartialEq, Eq)]
pub struct TransportError {
    pub message: String,
    /// Whether a later attempt might not meet it.
    pub retryable: bool,
}

impl View for TransportError {
    type V = Fault;

    open spec fn view(&self) -> Fault {
        Fault { message: self.message@, retryable: self.retryable }
    }
}

/// The fault that a later attempt would meet again.
pub open spec fn permanent(message: Seq<char>) -> Fault {
    Fault { message, retryable: false }
}

/// The fault that a later attempt might not meet.
pub open spec fn retryable(message: Seq<char>) -> Fault {
    Fault { message, retryable: true }
}

impl TransportError {
    /// An error that a later attempt would meet again.
    pub fn permanent(message: String) -> (error: Self)
        ensures
            error@ == permanent(message@),
    {
        Self { message, retryable: false }
    }

    /// An error that a later attempt might not meet.
    pub fn retryable(message: String) -> (error: Self)
        ensures
            error@ == retryable(message@),
    {
        Self { message, retryable: true }
    }
}

/// A peer that does not speak the protocol, which it will not do on a later
/// attempt either.
pub fn protocol_error(message: &str) -> (error: TransportError)
    ensures
        error@ == permanent(message@),
{
    TransportError::permanent(message.to_string())
}

/// The fault of a message that ends before what is being read of it does.
pub open spec fn broken_off(reading: Seq<char>) -> Fault {
    retryable(reading + ": the message breaks off"@)
}

/// A message that ends before what is being read of it does: the connection
/// broke, and the next one might not.
pub fn breaks_off(reading: &str) -> (error: TransportError)
    ensures
        error@ == broken_off(reading@),
{
    TransportError::retryable(reading.to_string().concat(": the message breaks off"))
}

} // verus!
