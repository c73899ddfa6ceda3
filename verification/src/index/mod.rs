//! What is consulted before a table is read: the [Bloom filter](bloom::Bloom).

pub mod bloom;

pub use crate::index::bloom::Bloom;
