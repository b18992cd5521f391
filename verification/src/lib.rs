//! Generator for C++ unit-wrapper headers.
//!
//! Reads the canonical units table (a small line-oriented, comma-separated
//! dialect), derives identifier forms from each unit's name and symbol,
//! groups the accepted records by physical dimension, and renders one header
//! per dimension plus a consolidated literal-operators header.

#![verifier::loop_isolation(false)]

pub mod chars;
pub mod emit;
pub mod group;
pub mod ident;
pub mod parse;
pub mod records;
