[package]
name = "nvme-state-db"
version = "0.1.0"
edition = "2021"
publish = false

[dependencies]
anyhow = "1"
crc32fast = "1"
crossbeam-skiplist = "0.1"
libc = "0.2"
memmap2 = "0.9"
thiserror = "2"
