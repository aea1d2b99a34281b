//! Results reported to the scheduler.

pub mod structs;
