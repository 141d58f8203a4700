//! Errors that abort an invocation.
use vstd::prelude::*;

verus! {

/// Every way an invocation can fail; each one leaves all account data as it was.
#[derive(Clone, Copy, Debug, PartialEq, Eq, Structural)]
pub enum PollError {
    /// Malformed instruction bytes or stored poll bytes.
    DecodeError,
    /// A required authorizing identity did not sign.
    MissingSigner,
    /// Option index out of range, a repeated voter, or a poll without options.
    InvalidArgument,
    /// The account holds no poll (its option list is empty, as in a zeroed buffer).
    MissingState,
    /// Fewer account handles than the instruction needs.
    NotEnoughAccountKeys,
    /// The poll does not fit into the account buffer.
    AccountDataTooSmall,
}

} // verus!
