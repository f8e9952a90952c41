//! Sanitization patterns: the stages of an overwrite scheme, the byte
//! streams they produce, and the registry of built-in schemes.

pub mod mem;
pub mod stage;
pub mod scheme;
