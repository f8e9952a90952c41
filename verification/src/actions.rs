//! The wipe engine and the bookkeeping it relies on.

pub mod account;
pub mod course;
pub mod exchange;
pub mod marker;
pub mod phase;
pub mod readback;
pub mod recorder;
pub mod report;
pub mod wipe;
