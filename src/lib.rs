//! Verified core of an on-chain poll program: poll state, vote recording,
//! tallies, the account byte layout and the instruction state machine.

pub mod identity;
pub mod error;
pub mod poll;
pub mod codec;
pub mod instruction;
pub mod processor;
pub mod abort;
