//! Value types shared by the allocators.

pub mod bitset;
pub mod bounded_vec;
pub mod cfi;
pub mod rnti;
