//! A typed table layer over an ordered, byte-oriented key-value engine.
//!
//! The engine itself (storage, iteration cursors, column families) is driven by
//! the caller; this crate holds the verified logic around it: byte encodings of
//! keys and values, capability modes, partition registration and resolution,
//! the decoding of scans and lookups, and merge operators.

pub mod access;
pub mod codec;
pub mod config;
pub mod error;
pub mod iter;
pub mod mode;
pub mod table;
pub mod tables;
