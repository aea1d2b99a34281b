//! Compile-time limits of the control region.

use vstd::prelude::*;

verus! {

/// Number of control format indicator values.
pub const NUM_OF_CFI: usize = 3;

/// Capacity of a CCE occupancy mask: an upper bound on every per-CFI CCE count.
pub const NUM_OF_CCES: usize = 256;

} // verus!
