//! A multi-pattern substring search engine behind a numeric-handle boundary:
//! a self-describing wire encoding for pattern sets, a matcher with fixed
//! ASCII-case-insensitive semantics that reports the longest match at every
//! matching start position, bounded match enumeration, and a checked buffer
//! arbiter for staging data across calls.

pub mod arbiter;
pub mod codec;
pub mod engine;
pub mod matcher;
pub mod spans;
