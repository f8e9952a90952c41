//! Secure erasure of block storage: every addressable byte of a device is
//! overwritten with one or more passes of constant or seeded random data,
//! each pass read back where that is asked for, with bad blocks stepped
//! around and failed attempts retried.
//!
//! - [`sanitization`] holds the passes: the stages of an overwrite scheme, the
//!   byte streams they produce, the buffers the streams are kept in, and the
//!   registry of built-in schemes.
//! - [`storage`] holds the boundary to the devices: the byte interface the
//!   engine drives, its error classes, a device in memory, and what is known
//!   and read of the devices of a system.
//! - [`actions`] holds the engine: the wipe itself, its two phases, the
//!   reports it makes and the order they come in, and the marker of bad
//!   blocks.
//! - [`ui`] holds what a command line front end computes: short device
//!   identifiers, the list of devices they lead to, and the reading of
//!   arguments.
//!
//! Everything in the library is verified with Verus, but for the calls into
//! the crates it builds on, whose contracts are stated where the calls are
//! made and taken on trust.

pub mod actions;
pub mod sanitization;
pub mod storage;
pub mod ui;
