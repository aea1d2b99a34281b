//! Placement of downlink control messages (DCIs) onto the control channel
//! elements (CCEs) of an LTE cell, one transmission time interval at a time.
//!
//! The crate offers the hashed per-UE candidate table of 3GPP TS 36.213
//! section 9.1.1 and three allocators over it: a greedy one, a greedy one
//! with a single repair pass, and an exhaustive one.

pub mod allocator;
pub mod defines;
pub mod signalling;
pub mod types;
