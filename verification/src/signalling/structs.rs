//! Error taxonomy of the allocators.

use vstd::prelude::*;

verus! {

/// Why a DCI could not be placed.
#[derive(Clone, Copy, Debug, PartialEq, Eq, Structural)]
pub enum AllocationError {
    /// No candidate fits at the current control format indicator and there is
    /// no larger one to move to.
    NoCchSpace,
}

pub type AllocationResult = Result<(), AllocationError>;

} // verus!
