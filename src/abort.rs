//! Invocations that end without completing.
use vstd::prelude::*;

verus! {

/// Why an invocation stopped before completing. The host drops such an
/// invocation together with every account write it made.
#[derive(Clone, Copy, Debug, PartialEq, Eq, Structural)]
pub enum Abort {
    Panicked,
    AllocationFailed,
}

/// Handles a panic: the invocation is abandoned.
pub fn panic() -> (r: Abort)
    ensures
        r == Abort::Panicked,
{
    Abort::Panicked
}

/// Handles a failed allocation of `size` bytes: the invocation is abandoned.
pub fn alloc_error(size: usize) -> (r: Abort)
    ensures
        r == Abort::AllocationFailed,
{
    Abort::AllocationFailed
}

} // verus!
