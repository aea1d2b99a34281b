//! Radio network temporary identifier.

use vstd::prelude::*;

verus! {

/// The 16-bit identifier of a UE. It tags a DCI with its recipient and seeds
/// the candidate hash.
#[derive(Clone, Copy, Debug, Default, PartialEq, Eq, PartialOrd, Ord, Hash, Structural)]
pub struct Rnti(pub u16);

} // verus!
