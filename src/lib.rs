//! Dispatch on byte patterns through a table of 128-bit hashes.
//!
//! A [`Matcher`] is built once from `(pattern, callback)` pairs and a default
//! callback. It keeps only the xxh3 hash of each pattern, in ascending order,
//! and dispatches an input by a binary search on the hash of that input.

pub mod hashing;
pub mod laws;
pub mod matcher;

pub use hashing::xxh3_128_of;
pub use matcher::{Collision, Function, Matcher};
