//! The candidate table and the three allocators.

pub mod placement;
pub mod prng;
pub mod sequential_pdcch_allocator;
pub mod shuffling_pdcch_allocator;
pub mod structures;
pub mod tree_pdcch_allocator;
