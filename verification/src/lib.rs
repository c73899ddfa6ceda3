//! `nvme-state-db`: a key-value engine of low latency for blockchain state on NVMe.
//!
//! A write goes to a write-ahead log ([`wal`]) and then to a table in memory
//! ([`memtable`]). A flush turns the table in memory into an immutable file
//! ([`sstable`]) with a Bloom filter ([`index`]). [`engine`] joins them.
//!
//! The library computes; it opens no file. What is to be written it hands out as
//! bytes and offsets, and what was read it takes as bytes.

pub mod bytes;
pub mod crc;
pub mod engine;
pub mod error;
pub mod files;
pub mod index;
pub mod laws;
pub mod memtable;
pub mod sstable;
pub mod text;
pub mod types;
pub mod wal;

pub use engine::Engine;
pub use error::Error;
pub use memtable::{Lookup, MemTable, MemValue};
pub use types::{Key, SeqNum, Value};
pub use wal::{Wal, WalOp, WalRecord, WAL_ALIGN};
