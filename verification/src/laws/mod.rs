//! What the library promises, said of inputs and results in plain terms: bytes,
//! lengths, numbers and maps.

pub mod engines;
pub mod filter;
pub mod keys;
pub mod log;
pub mod messages;
pub mod numbers;
pub mod table_files;
pub mod tables;
