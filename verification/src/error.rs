//! The error returned by the fallible allocation path.

use vstd::prelude::*;

verus! {

/// The reason a value could not be allocated into a [`Heap`](crate::Heap).
///
/// The heap addresses its slots with a 32-bit index, so it holds at most
/// `u32::MAX + 1` slots. Reaching that ceiling with no reclaimed slot to reuse is
/// the one failure an allocation can hit.
#[derive(Clone, Copy, Debug, PartialEq, Eq, Structural)]
#[non_exhaustive]
pub enum GcError {
    /// Every one of the `u32::MAX + 1` slot indices is in use and none is free.
    CapacityExhausted,
}

impl GcError {
    /// The human-readable description of the error.
    pub fn to_string(&self) -> (text: String)
        ensures
            text@ == "heap is full: cannot address beyond u32::MAX slots"@,
    {
        match self {
            GcError::CapacityExhausted => {
                "heap is full: cannot address beyond u32::MAX slots".to_owned()
            },
        }
    }
}

} // verus!
