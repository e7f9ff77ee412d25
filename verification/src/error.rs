use vstd::prelude::*;

verus! {

/// The ways in which driving the model can fail.
#[derive(Clone, Copy, Debug, PartialEq, Eq, Structural)]
pub enum SimError {
    /// A stop was asked for its head bus while no bus was queued there.
    EmptyQueue,
    /// An operation was invoked on a bus that is in the wrong state for it.
    InvalidState,
    /// Taking passengers on would have put a bus over its capacity.
    CapacityExceeded,
}

} // verus!
