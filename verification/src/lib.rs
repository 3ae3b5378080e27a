//! Multi-threaded AOB (array-of-bytes) pattern scanning engine.
//!
//! The library compiles a textual byte pattern (exact bytes and byte-level
//! wildcards) into a [`scan::Pattern`], and scans a byte buffer — or a named
//! section of a structured object file — for every offset at which the
//! pattern matches.

pub mod container;
pub mod matcher;
pub mod parse;
pub mod partition;
pub mod scan;
