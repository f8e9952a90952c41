//! What the command line interface computes: short device identifiers, the
//! list of devices they refer to, and the reading of its arguments.

pub mod idshortcuts;
pub mod id;
pub mod storage_repo;
pub mod args;
