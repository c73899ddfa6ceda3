# nvme-state-db

A key-value engine in the LSM style for blockchain state on NVMe: write-ahead
log, table in memory, immutable sorted files with a Bloom filter. The library is
written in Verus: each function states what it returns, and Verus proves it.

```text
put(k, v) -> log frame -> table in memory (skip list)
                               | flush
                               v
                          table file (blocks, index, Bloom filter, footer)
get(k)    -> table in memory -> table files, newest first
```

## Layout

| Path | What it holds |
|------|---------------|
| `src/types.rs` | keys, values, sequence numbers, and the model of a table |
| `src/memtable.rs` | the table in memory |
| `src/wal.rs` | the format of the log, replay, recovery |
| `src/index/bloom.rs` | the Bloom filter |
| `src/sstable/` | the file format, its writer, its reader, and what a file gives back |
| `src/engine.rs` | opening, writes, lookups, flushes |
| `src/files.rs` | names of table files |
| `app/` | files, mappings and aligned memory around the library |

The library opens no file. A write is a frame to be stored and then applied; a
flush is an image to be stored and then installed. `app/` stores them.

## What is proved

The functions whose names begin with `law_` state what holds of the library as a
whole. Among them:

- the Bloom filter has no false negatives;
- a table file answers every key exactly as the rows that were written into it;
- a log replays the writes that were appended, and a write that was cut short
  takes back nothing but itself;
- a write is found by the next lookup and changes no other key; it is there again
  after a restart, after a recovery too, unless pages that a torn write left
  behind it read as a frame of their own;
- a flush changes no lookup, nor does a restart after it.

CRC-32 (`crc32fast`) and the skip list (`crossbeam-skiplist`) are trusted; the
comments above the functions that call them say what is assumed.
