//! The random generator that the greedy allocators draw their first probe
//! from.

use rand::rngs::OsRng;
use rand::rngs::StdRng;
use rand::Rng;
use rand::SeedableRng;
use vstd::prelude::*;

verus! {

#[verifier::external_type_specification]
#[verifier::external_body]
pub struct ExStdRng(StdRng);

/// `Rng::gen_range` of rand on the range `0..len`. Trusted: the call
/// returns a position of the range, so a number below `len`; it panics on
/// an empty range, which `requires` excludes. Nothing is claimed about
/// which position comes back.
#[verifier::external_body]
pub(crate) fn draw_index(generator: &mut StdRng, len: usize) -> (r: usize)
    requires
        len > 0,
    ensures
        r < len,
{
    generator.gen_range(0..len)
}

/// `SeedableRng::seed_from_u64` of rand for `StdRng`. Nothing is claimed
/// about the generator that comes back.
#[verifier::external_body]
pub(crate) fn seeded_generator(seed: u64) -> StdRng {
    StdRng::seed_from_u64(seed)
}

/// `SeedableRng::from_rng` of rand for `StdRng`, fed from `OsRng`: a
/// generator seeded by the operating system, or `None` where the operating
/// system has no random bytes to give. Nothing is claimed about the result.
#[verifier::external_body]
pub(crate) fn system_generator() -> Option<StdRng> {
    StdRng::from_rng(OsRng).ok()
}

/// The generator of an allocator that was given no seed: the one that the
/// operating system seeded, where it gave one, and `fallback` where not.
pub(crate) fn fresh_generator(found: Option<StdRng>, fallback: StdRng) -> (r: StdRng)
    ensures
        r == match found {
            Some(generator) => generator,
            None => fallback,
        },
{
    match found {
        Some(generator) => generator,
        None => fallback,
    }
}

} // verus!
