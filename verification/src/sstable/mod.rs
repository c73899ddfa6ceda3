//! SSTable: an immutable file of sorted records, in blocks, with an index, a
//! Bloom filter and a footer.
//!
//! ```text
//! block 0 | block 1 | ... | index | Bloom filter | footer
//! ```

use crate::bytes::{
    bytes_equal, joined, le_bytes, lemma_joined_piece, lemma_joined_push,
    lemma_le_bytes_len, lemma_number_at, lemma_part_of_part, push_all, push_le, read_u16, read_u32,
    read_u64, u16_at, u32_at, u64_at, zeros,
};
use crate::crc::{crc32, crc_of};
use crate::error::Error;
use crate::types::{stored_value, Row};
use vstd::prelude::*;
use vstd::slice::slice_subrange;
use vstd::slice::slice_to_vec;

pub mod laws;
pub mod reader;
pub mod writer;

pub use reader::{SstLookup, SstReader};
pub use writer::{
    flush_memtable, flush_memtable_with, SstImage, SstMeta, SstWriteOptions, SstWriter,
};

verus! {

/// `SST1`, the magic of the footer.
pub const SST_MAGIC: [u8; 4] = [83, 83, 84, 49];

/// `BLK1`, the magic of a block.
pub const BLOCK_MAGIC: [u8; 4] = [66, 76, 75, 49];

/// The format version.
pub const SST_VERSION: u16 = 1;

/// Bytes of a [`BlockHeader`].
pub const BLOCK_HEADER_SIZE: usize = 16;

/// Bytes of an [`IndexEntry`]; the key follows it.
pub const INDEX_ENTRY_SIZE: usize = 16;

/// Bytes of a [`SstFooter`], at the end of the file.
pub const FOOTER_SIZE: usize = 128;

/// The target size of a block's payload.
pub const DEFAULT_BLOCK_SIZE: usize = 4096;

/// Kind of a record that holds a value.
pub const KIND_PUT: u8 = 1;

/// Kind of a record that marks a delete.
pub const KIND_TOMBSTONE: u8 = 2;

/// Bytes of a record before its key.
pub const RECORD_HEADER: usize = 17;

// ---------------------------------------------------------------------------
// Fixed-size structures
// ---------------------------------------------------------------------------

/// Header of a data block.
#[derive(Clone, Copy, Debug, Eq, PartialEq)]
pub struct BlockHeader {
    /// `BLK1`.
    pub magic: [u8; 4],
    /// CRC-32 of the payload.
    pub crc32: u32,
    /// Bytes of payload.
    pub payload_len: u32,
    /// Records in the block.
    pub record_count: u32,
}

/// Where a data block is. The block's first key follows it in the file.
#[derive(Clone, Copy, Debug, Eq, PartialEq)]
pub struct IndexEntry {
    /// Offset of the block in the file.
    pub block_offset: u64,
    /// Bytes of header and payload.
    pub block_len: u32,
    /// Bytes of the block's first key.
    pub first_key_len: u32,
}

/// The fixed tail of the file.
#[derive(Clone, Copy, Debug, Eq, PartialEq)]
pub struct SstFooter {
    /// `SST1`.
    pub magic: [u8; 4],
    /// Format version.
    pub version: u16,
    /// Reserved.
    pub flags: u16,
    /// Offset of the index.
    pub index_offset: u64,
    /// Bytes of index.
    pub index_len: u64,
    /// Offset of the Bloom filter.
    pub bloom_offset: u64,
    /// Bytes of Bloom filter.
    pub bloom_len: u64,
    /// Records, deletes included.
    pub entry_count: u64,
    /// Data blocks.
    pub block_count: u64,
    /// The smallest sequence number, 0 if there are no records.
    pub min_seq: u64,
    /// The largest sequence number, 0 if there are no records.
    pub max_seq: u64,
    /// CRC-32 of the first 72 bytes of the footer.
    pub checksum: u32,
    /// Zeros.
    pub _pad: [u8; 52],
}

/// The bytes of a block header.
pub open spec fn block_header_bytes(
    magic: Seq<u8>,
    crc: u32,
    payload_len: u32,
    record_count: u32,
) -> Seq<u8> {
    magic + le_bytes(crc as nat, 4) + le_bytes(payload_len as nat, 4) + le_bytes(
        record_count as nat,
        4,
    )
}

/// The bytes of an index entry, without the key.
pub open spec fn index_entry_bytes(
    block_offset: u64,
    block_len: u32,
    first_key_len: u32,
) -> Seq<u8> {
    le_bytes(block_offset as nat, 8) + le_bytes(block_len as nat, 4) + le_bytes(
        first_key_len as nat,
        4,
    )
}

/// Whether `bytes` begin with a block header.
pub open spec fn check_block_header(bytes: Seq<u8>) -> Result<(), Error> {
    if bytes.len() < BLOCK_HEADER_SIZE {
        Err(Error::SstCorrupt("BlockHeader truncada"))
    } else if bytes.subrange(0, 4) != BLOCK_MAGIC@ {
        Err(Error::SstCorrupt("magic de bloque"))
    } else {
        Ok(())
    }
}

/// Whether `bytes` begin with a footer, when the CRC-32 of the first 72 of them
/// is `crc`.
pub open spec fn check_footer(bytes: Seq<u8>, crc: u32) -> Result<(), Error> {
    if bytes.len() < FOOTER_SIZE {
        Err(Error::SstCorrupt("footer truncado"))
    } else if bytes.subrange(0, 4) != SST_MAGIC@ {
        Err(Error::SstCorrupt("magic de footer"))
    } else if u16_at(bytes, 4) != SST_VERSION {
        Err(Error::SstCorrupt("versión de SST"))
    } else if u32_at(bytes, 72) != crc {
        Err(Error::SstCorrupt("checksum de footer"))
    } else {
        Ok(())
    }
}

/// The first 72 bytes of a footer with the given fields; `numbers` are the eight
/// of 64 bits.
pub open spec fn footer_head(magic: Seq<u8>, version: u16, flags: u16, numbers: Seq<u64>) -> Seq<
    u8,
> {
    magic + le_bytes(version as nat, 2) + le_bytes(flags as nat, 2) + joined(number_pieces(numbers))
}

/// The bytes of each number.
pub open spec fn number_pieces(numbers: Seq<u64>) -> Seq<Seq<u8>> {
    Seq::new(numbers.len(), |i: int| le_bytes(numbers[i] as nat, 8))
}

/// The bytes of a footer: the part that the checksum covers, the checksum `crc`,
/// and padding.
pub open spec fn footer_bytes(head: Seq<u8>, crc: u32) -> Seq<u8> {
    head + le_bytes(crc as nat, 4) + zeros(52)
}

impl SstFooter {
    /// The part of the footer that the checksum covers.
    pub open spec fn head_bytes(self) -> Seq<u8> {
        footer_head(self.magic@, self.version, self.flags, self.numbers())
    }

    /// The fields of 64 bits, in order.
    pub open spec fn numbers(self) -> Seq<u64> {
        seq![
            self.index_offset,
            self.index_len,
            self.bloom_offset,
            self.bloom_len,
            self.entry_count,
            self.block_count,
            self.min_seq,
            self.max_seq,
        ]
    }

    /// The bytes of the footer.
    pub open spec fn to_bytes(self) -> Seq<u8> {
        footer_bytes(self.head_bytes(), crc32(self.head_bytes()))
    }

    /// The fields are those that `bytes` write down.
    pub open spec fn reads(self, bytes: Seq<u8>) -> bool {
        &&& self.magic@ == SST_MAGIC@
        &&& self.version == SST_VERSION
        &&& self.flags == u16_at(bytes, 6)
        &&& self.index_offset == u64_at(bytes, 8)
        &&& self.index_len == u64_at(bytes, 16)
        &&& self.bloom_offset == u64_at(bytes, 24)
        &&& self.bloom_len == u64_at(bytes, 32)
        &&& self.entry_count == u64_at(bytes, 40)
        &&& self.block_count == u64_at(bytes, 48)
        &&& self.min_seq == u64_at(bytes, 56)
        &&& self.max_seq == u64_at(bytes, 64)
        &&& self.checksum == u32_at(bytes, 72)
        &&& self._pad@ == zeros(52)
    }

    /// The footer's first 72 bytes.
    fn head(&self) -> (out: Vec<u8>)
        ensures
            out@ == self.head_bytes(),
    {
        let mut out: Vec<u8> = Vec::new();
        push_all(&mut out, &self.magic);
        push_le(&mut out, self.version as u64, 2);
        push_le(&mut out, self.flags as u64, 2);
        let ghost start = out@;
        let numbers: [u64; 8] = [
            self.index_offset,
            self.index_len,
            self.bloom_offset,
            self.bloom_len,
            self.entry_count,
            self.block_count,
            self.min_seq,
            self.max_seq,
        ];
        let mut i: usize = 0;
        let ghost pieces = number_pieces(numbers@);
        assert(pieces.take(0) =~= seq![]);
        assert(out@ =~= start + joined(pieces.take(0)));
        while i < 8
            invariant
                i <= 8,
                pieces == number_pieces(numbers@),
                out@ == start + joined(pieces.take(i as int)),
            decreases 8 - i,
        {
            push_le(&mut out, numbers[i], 8);
            proof {
                assert(pieces.take(i + 1) =~= pieces.take(i as int).push(pieces[i as int]));
                lemma_joined_push(pieces.take(i as int), pieces[i as int]);
                assert(out@ =~= start + joined(pieces.take(i + 1)));
            }
            i = i + 1;
        }
        assert(pieces.take(8) =~= pieces);
        assert(numbers@ =~= self.numbers());
        assert(out@ =~= self.head_bytes());
        out
    }

    /// The footer's bytes, with its checksum computed.
    pub fn encode(&self) -> (r: Result<[u8; 128], Error>)
        ensures
            r matches Ok(bytes) && bytes@ == self.to_bytes(),
    {
        let head = self.head();
        let crc: u32 = crc_of(head.as_slice());
        Ok(self.encode_with(crc))
    }

    /// The footer's bytes with checksum `crc`.
    pub fn encode_with(&self, crc: u32) -> (bytes: [u8; 128])
        ensures
            bytes@ == footer_bytes(self.head_bytes(), crc),
    {
        let mut out = self.head();
        proof {
            lemma_footer_head_len(self.magic@, self.version, self.flags, self.numbers());
            lemma_le_bytes_len(crc as nat, 4);
        }
        push_le(&mut out, crc as u64, 4);
        let mut bytes: [u8; 128] = [0; 128];
        let mut i: usize = 0;
        while i < 76
            invariant
                i <= 76,
                out@.len() == 76,
                forall|j: int| 0 <= j < i ==> bytes@[j] == out@[j],
                forall|j: int| i <= j < 128 ==> bytes@[j] == 0,
            decreases 76 - i,
        {
            let b: u8 = out[i];
            bytes[i] = b;
            i = i + 1;
        }
        assert(bytes@ =~= footer_bytes(self.head_bytes(), crc));
        bytes
    }

    /// The footer that `bytes` begin with; magic, version and checksum are checked.
    pub fn decode(bytes: &[u8]) -> (r: Result<Self, Error>)
        ensures
            match r {
                Ok(footer) => check_footer(bytes@, crc32(bytes@.subrange(0, 72))) == Ok::<
                    (),
                    Error,
                >(()) && footer.reads(bytes@),
                Err(e) => check_footer(bytes@, crc32(bytes@.subrange(0, 72))) == Err::<(), Error>(
                    e,
                ),
            },
    {
        if bytes.len() < FOOTER_SIZE {
            return Err(Error::SstCorrupt("footer truncado"));
        }
        let crc: u32 = crc_of(slice_subrange(bytes, 0, 72));
        Self::decode_with(bytes, crc)
    }

    /// The footer that `bytes` begin with, when the CRC-32 of the first 72 of
    /// them is `crc`.
    pub fn decode_with(bytes: &[u8], crc: u32) -> (r: Result<Self, Error>)
        ensures
            match r {
                Ok(footer) => check_footer(bytes@, crc) == Ok::<(), Error>(()) && footer.reads(
                    bytes@,
                ),
                Err(e) => check_footer(bytes@, crc) == Err::<(), Error>(e),
            },
    {
        if bytes.len() < FOOTER_SIZE {
            return Err(Error::SstCorrupt("footer truncado"));
        }
        if !bytes_equal(slice_subrange(bytes, 0, 4), &SST_MAGIC) {
            return Err(Error::SstCorrupt("magic de footer"));
        }
        let version: u16 = read_u16(bytes, 4);
        if version != SST_VERSION {
            return Err(Error::SstCorrupt("versión de SST"));
        }
        let got: u32 = read_u32(bytes, 72);
        if got != crc {
            return Err(Error::SstCorrupt("checksum de footer"));
        }
        let footer = SstFooter {
            magic: SST_MAGIC,
            version,
            flags: read_u16(bytes, 6),
            index_offset: read_u64(bytes, 8),
            index_len: read_u64(bytes, 16),
            bloom_offset: read_u64(bytes, 24),
            bloom_len: read_u64(bytes, 32),
            entry_count: read_u64(bytes, 40),
            block_count: read_u64(bytes, 48),
            min_seq: read_u64(bytes, 56),
            max_seq: read_u64(bytes, 64),
            checksum: got,
            _pad: [0; 52],
        };
        assert(footer._pad@ =~= zeros(52));
        Ok(footer)
    }

    /// The footer at the end of a table whose bytes are `file`.
    pub fn read_from_file(file: &[u8]) -> (r: Result<Self, Error>)
        ensures
            match r {
                Ok(footer) => check_footer_of(file@) == Ok::<(), Error>(()) && footer.reads(
                    footer_part(file@),
                ),
                Err(e) => check_footer_of(file@) == Err::<(), Error>(e),
            },
    {
        if file.len() < FOOTER_SIZE {
            return Err(Error::SstCorrupt("archivo más corto que el footer"));
        }
        Self::decode(slice_subrange(file, file.len() - FOOTER_SIZE, file.len()))
    }
}

/// The last 128 bytes of a file.
pub open spec fn footer_part(file: Seq<u8>) -> Seq<u8> {
    file.subrange(file.len() - FOOTER_SIZE, file.len() as int)
}

/// Whether a file ends in a footer.
pub open spec fn check_footer_of(file: Seq<u8>) -> Result<(), Error> {
    if file.len() < FOOTER_SIZE {
        Err(Error::SstCorrupt("archivo más corto que el footer"))
    } else {
        check_footer(footer_part(file), crc32(footer_part(file).subrange(0, 72)))
    }
}

impl BlockHeader {
    /// The header's 16 bytes.
    pub fn encode(&self) -> (r: Result<[u8; 16], Error>)
        ensures
            r matches Ok(bytes) && bytes@ == block_header_bytes(
                self.magic@,
                self.crc32,
                self.payload_len,
                self.record_count,
            ),
    {
        let mut out: Vec<u8> = Vec::new();
        push_all(&mut out, &self.magic);
        assert(out@ =~= self.magic@);
        push_le(&mut out, self.crc32 as u64, 4);
        push_le(&mut out, self.payload_len as u64, 4);
        push_le(&mut out, self.record_count as u64, 4);
        proof {
            lemma_le_bytes_len(self.crc32 as nat, 4);
            lemma_le_bytes_len(self.payload_len as nat, 4);
            lemma_le_bytes_len(self.record_count as nat, 4);
        }
        Ok(sixteen(&out))
    }

    /// The header that `bytes` begin with; the magic is checked.
    pub fn decode(bytes: &[u8]) -> (r: Result<Self, Error>)
        ensures
            match r {
                Ok(header) => {
                    &&& check_block_header(bytes@) == Ok::<(), Error>(())
                    &&& header.magic@ == BLOCK_MAGIC@
                    &&& header.crc32 == u32_at(bytes@, 4)
                    &&& header.payload_len == u32_at(bytes@, 8)
                    &&& header.record_count == u32_at(bytes@, 12)
                },
                Err(e) => check_block_header(bytes@) == Err::<(), Error>(e),
            },
    {
        if bytes.len() < BLOCK_HEADER_SIZE {
            return Err(Error::SstCorrupt("BlockHeader truncada"));
        }
        if !bytes_equal(slice_subrange(bytes, 0, 4), &BLOCK_MAGIC) {
            return Err(Error::SstCorrupt("magic de bloque"));
        }
        Ok(
            BlockHeader {
                magic: BLOCK_MAGIC,
                crc32: read_u32(bytes, 4),
                payload_len: read_u32(bytes, 8),
                record_count: read_u32(bytes, 12),
            },
        )
    }
}

impl IndexEntry {
    /// The entry's 16 bytes, without the key.
    pub fn encode(&self) -> (r: Result<[u8; 16], Error>)
        ensures
            r matches Ok(bytes) && bytes@ == index_entry_bytes(
                self.block_offset,
                self.block_len,
                self.first_key_len,
            ),
    {
        let mut out: Vec<u8> = Vec::new();
        push_le(&mut out, self.block_offset, 8);
        push_le(&mut out, self.block_len as u64, 4);
        push_le(&mut out, self.first_key_len as u64, 4);
        proof {
            lemma_le_bytes_len(self.block_offset as nat, 8);
            lemma_le_bytes_len(self.block_len as nat, 4);
            lemma_le_bytes_len(self.first_key_len as nat, 4);
            assert(out@ =~= index_entry_bytes(
                self.block_offset,
                self.block_len,
                self.first_key_len,
            ));
        }
        Ok(sixteen(&out))
    }

    /// The entry that `bytes` begin with.
    pub fn decode(bytes: &[u8]) -> (r: Result<Self, Error>)
        ensures
            match r {
                Ok(entry) => {
                    &&& bytes@.len() >= INDEX_ENTRY_SIZE
                    &&& entry.block_offset == u64_at(bytes@, 0)
                    &&& entry.block_len == u32_at(bytes@, 8)
                    &&& entry.first_key_len == u32_at(bytes@, 12)
                },
                Err(e) => bytes@.len() < INDEX_ENTRY_SIZE && e == Error::SstCorrupt(
                    "IndexEntry truncada",
                ),
            },
    {
        if bytes.len() < INDEX_ENTRY_SIZE {
            return Err(Error::SstCorrupt("IndexEntry truncada"));
        }
        Ok(
            IndexEntry {
                block_offset: read_u64(bytes, 0),
                block_len: read_u32(bytes, 8),
                first_key_len: read_u32(bytes, 12),
            },
        )
    }
}

/// Sixteen bytes as an array.
fn sixteen(v: &Vec<u8>) -> (bytes: [u8; 16])
    requires
        v@.len() == 16,
    ensures
        bytes@ == v@,
{
    let mut bytes: [u8; 16] = [0; 16];
    let mut i: usize = 0;
    while i < 16
        invariant
            i <= 16,
            v@.len() == 16,
            forall|j: int| 0 <= j < i ==> bytes@[j] == v@[j],
        decreases 16 - i,
    {
        let b: u8 = v[i];
        bytes[i] = b;
        i = i + 1;
    }
    assert(bytes@ =~= v@);
    bytes
}

// ---------------------------------------------------------------------------
// The index
// ---------------------------------------------------------------------------

/// An entry of the index together with the key that follows it.
pub struct IndexRow {
    pub key: Seq<u8>,
    pub block_offset: u64,
    pub block_len: u32,
}

/// The bytes of an entry of the index, with its key.
pub open spec fn index_row_bytes(row: IndexRow) -> Seq<u8> {
    index_entry_bytes(row.block_offset, row.block_len, row.key.len() as u32) + row.key
}

/// The bytes of each entry of the index.
pub open spec fn index_pieces(rows: Seq<IndexRow>) -> Seq<Seq<u8>> {
    Seq::new(rows.len(), |i: int| index_row_bytes(rows[i]))
}

/// The bytes of an index.
pub open spec fn index_bytes(rows: Seq<IndexRow>) -> Seq<u8> {
    joined(index_pieces(rows))
}

/// The entries of an index blob from offset `off` on; `overflow` is the error for
/// a key that would end beyond the largest machine word.
pub open spec fn index_rows(bytes: Seq<u8>, off: int, overflow: Error) -> Result<
    Seq<IndexRow>,
    Error,
>
    decreases bytes.len() - off,
{
    if off >= bytes.len() {
        Ok(seq![])
    } else if bytes.len() - off < INDEX_ENTRY_SIZE {
        Err(Error::SstCorrupt("IndexEntry truncada"))
    } else {
        let end = off + INDEX_ENTRY_SIZE + u32_at(bytes, off + 12);
        if end > usize::MAX {
            Err(overflow)
        } else if end > bytes.len() {
            Err(Error::SstCorrupt("first-key truncada"))
        } else {
            let row = IndexRow {
                key: bytes.subrange(off + INDEX_ENTRY_SIZE, end),
                block_offset: u64_at(bytes, off),
                block_len: u32_at(bytes, off + 8),
            };
            match index_rows(bytes, end, overflow) {
                Ok(rest) => Ok(seq![row] + rest),
                Err(e) => Err(e),
            }
        }
    }
}

/// The offset of entry `i` in an index of `rows`.
pub open spec fn entry_offset(rows: Seq<IndexRow>, i: int) -> int
    decreases i,
{
    if i <= 0 {
        0
    } else {
        entry_offset(rows, i - 1) + INDEX_ENTRY_SIZE + rows[i - 1].key.len()
    }
}

/// A decoded index entry holds what `row` says.
pub open spec fn is_index_row(pair: (Vec<u8>, IndexEntry), row: IndexRow) -> bool {
    &&& pair.0@ == row.key
    &&& pair.1.block_offset == row.block_offset
    &&& pair.1.block_len == row.block_len
    &&& pair.1.first_key_len == row.key.len()
}

/// The decoded entries are `rows`, in order.
pub open spec fn are_index_rows(pairs: Seq<(Vec<u8>, IndexEntry)>, rows: Seq<IndexRow>) -> bool {
    &&& pairs.len() == rows.len()
    &&& forall|i: int| 0 <= i < pairs.len() ==> is_index_row(#[trigger] pairs[i], rows[i])
}

/// The entries of an index blob, each with its block's first key.
pub fn decode_index(bytes: &[u8]) -> (r: Result<Vec<(Vec<u8>, IndexEntry)>, Error>)
    ensures
        match r {
            Ok(pairs) => index_rows(bytes@, 0, Error::SstCorrupt("clave de índice")) is Ok && are_index_rows(
                pairs@,
                index_rows(bytes@, 0, Error::SstCorrupt("clave de índice"))->Ok_0,
            ),
            Err(e) => index_rows(bytes@, 0, Error::SstCorrupt("clave de índice")) == Err::<Seq<IndexRow>, Error>(e),
        },
{
    let mut out: Vec<(Vec<u8>, IndexEntry)> = Vec::new();
    let mut off: usize = 0;
    let ghost mut seen: Seq<IndexRow> = seq![];
    let ghost overflow = Error::SstCorrupt("clave de índice");
    let ghost total = index_rows(bytes@, 0, overflow);
    proof {
        if total is Ok {
            assert(seen + total->Ok_0 =~= total->Ok_0);
        }
    }
    while off < bytes.len()
        invariant
            off <= bytes.len(),
            overflow == Error::SstCorrupt("clave de índice"),
            total == index_rows(bytes@, 0, overflow),
            are_index_rows(out@, seen),
            match index_rows(bytes@, off as int, overflow) {
                Ok(rest) => total == Ok::<Seq<IndexRow>, Error>(seen + rest),
                Err(e) => total == Err::<Seq<IndexRow>, Error>(e),
            },
        decreases bytes.len() - off,
    {
        let ghost here = off as int;
        let rest = slice_subrange(bytes, off, bytes.len());
        let entry = match IndexEntry::decode(rest) {
            Ok(entry) => entry,
            Err(e) => {
                return Err(e);
            },
        };
        proof {
            assert(rest@.subrange(0, 8) =~= bytes@.subrange(here, here + 8));
            assert(rest@.subrange(8, 12) =~= bytes@.subrange(here + 8, here + 12));
            assert(rest@.subrange(12, 16) =~= bytes@.subrange(here + 12, here + 16));
        }
        let key_start: usize = off + INDEX_ENTRY_SIZE;
        let end: usize = match key_start.checked_add(entry.first_key_len as usize) {
            Some(end) => end,
            None => {
                return Err(Error::SstCorrupt("clave de índice"));
            },
        };
        if end > bytes.len() {
            return Err(Error::SstCorrupt("first-key truncada"));
        }
        let key = slice_to_vec(slice_subrange(bytes, key_start, end));
        proof {
            let row = IndexRow {
                key: bytes@.subrange(here + 16, end as int),
                block_offset: u64_at(bytes@, here),
                block_len: u32_at(bytes@, here + 8),
            };
            if index_rows(bytes@, end as int, overflow) is Ok {
                let tail = index_rows(bytes@, end as int, overflow)->Ok_0;
                assert(seen + (seq![row] + tail) =~= seen.push(row) + tail);
            }
            seen = seen.push(row);
        }
        out.push((key, entry));
        off = end;
    }
    proof {
        assert(seen + seq![] =~= seen);
    }
    Ok(out)
}

// ---------------------------------------------------------------------------
// Records
// ---------------------------------------------------------------------------

/// The bytes of a record.
pub open spec fn record_bytes(key: Seq<u8>, seq: u64, kind: u8, value: Seq<u8>) -> Seq<u8> {
    le_bytes(key.len(), 4) + le_bytes(value.len(), 4) + le_bytes(seq as nat, 8) + seq![kind] + key
        + value
}

/// The kind of a record that stores `value`.
pub open spec fn kind_of(value: Option<Seq<u8>>) -> u8 {
    if value is Some {
        KIND_PUT
    } else {
        KIND_TOMBSTONE
    }
}

/// The bytes of a row as a record.
pub open spec fn row_bytes(row: Row) -> Seq<u8> {
    record_bytes(row.0, row.1.0, kind_of(row.1.1), stored_value(row.1.1))
}

/// The bytes of `rows`, record after record.
pub open spec fn rows_bytes(rows: Seq<Row>) -> Seq<u8> {
    joined(row_pieces(rows))
}

/// The bytes of each row.
pub open spec fn row_pieces(rows: Seq<Row>) -> Seq<Seq<u8>> {
    Seq::new(rows.len(), |i: int| row_bytes(rows[i]))
}

/// Both lengths of a row fit their fields.
pub open spec fn row_fits(row: Row) -> bool {
    row.0.len() <= u32::MAX && stored_value(row.1.1).len() <= u32::MAX
}

/// A record as it lies in a payload.
pub struct Cell {
    pub key: Seq<u8>,
    pub seq: u64,
    pub kind: u8,
    pub value: Seq<u8>,
    /// Where the next record begins.
    pub next: int,
}

/// The record at offset `off` of a payload.
#[verifier::opaque]
pub open spec fn cell_at(payload: Seq<u8>, off: int) -> Result<Cell, Error> {
    if payload.len() - off < RECORD_HEADER {
        Err(Error::SstCorrupt("registro truncado"))
    } else {
        let key_end = off + RECORD_HEADER + u32_at(payload, off);
        let val_end = key_end + u32_at(payload, off + 4);
        if key_end > usize::MAX {
            Err(Error::SstCorrupt("clave de registro"))
        } else if val_end > usize::MAX {
            Err(Error::SstCorrupt("valor de registro"))
        } else if key_end > payload.len() {
            Err(Error::SstCorrupt("clave truncada"))
        } else if val_end > payload.len() {
            Err(Error::SstCorrupt("valor truncado"))
        } else {
            Ok(
                Cell {
                    key: payload.subrange(off + RECORD_HEADER, key_end),
                    seq: u64_at(payload, off + 8),
                    kind: payload[off + 16],
                    value: payload.subrange(key_end, val_end),
                    next: val_end,
                },
            )
        }
    }
}

/// The row that a record stands for.
pub open spec fn cell_row(cell: Cell) -> Result<Row, Error> {
    if cell.kind == KIND_PUT {
        Ok((cell.key, (cell.seq, Some(cell.value))))
    } else if cell.kind == KIND_TOMBSTONE {
        if cell.value.len() != 0 {
            Err(Error::SstCorrupt("tombstone con valor"))
        } else {
            Ok((cell.key, (cell.seq, None)))
        }
    } else {
        Err(Error::SstCorrupt("kind de registro"))
    }
}

/// The rows of a payload from offset `off` on.
pub open spec fn payload_rows(payload: Seq<u8>, off: int) -> Result<Seq<Row>, Error>
    decreases payload.len() - off,
    via payload_rows_ends
{
    if off >= payload.len() {
        Ok(seq![])
    } else {
        match cell_at(payload, off) {
            Err(e) => Err(e),
            Ok(cell) => match cell_row(cell) {
                Err(e) => Err(e),
                Ok(row) => match payload_rows(payload, cell.next) {
                    Ok(rest) => Ok(seq![row] + rest),
                    Err(e) => Err(e),
                },
            },
        }
    }
}

#[via_fn]
proof fn payload_rows_ends(payload: Seq<u8>, off: int) {
    reveal(cell_at);
}

/// Where the parts of a record lie.
pub struct CellPos {
    pub key_start: usize,
    pub key_end: usize,
    pub val_end: usize,
    pub seq: u64,
    pub kind: u8,
}

/// Finds the parts of the record at offset `off`.
pub fn read_cell(payload: &[u8], off: usize) -> (r: Result<CellPos, Error>)
    requires
        off <= payload@.len(),
    ensures
        match r {
            Ok(pos) => {
                &&& off + RECORD_HEADER == pos.key_start <= pos.key_end <= pos.val_end
                    <= payload@.len()
                &&& cell_at(payload@, off as int) == Ok::<Cell, Error>(
                    Cell {
                        key: payload@.subrange(pos.key_start as int, pos.key_end as int),
                        seq: pos.seq,
                        kind: pos.kind,
                        value: payload@.subrange(pos.key_end as int, pos.val_end as int),
                        next: pos.val_end as int,
                    },
                )
            },
            Err(e) => cell_at(payload@, off as int) == Err::<Cell, Error>(e),
        },
{
    proof {
        reveal(cell_at);
    }
    if payload.len() - off < RECORD_HEADER {
        return Err(Error::SstCorrupt("registro truncado"));
    }
    let key_len: usize = read_u32(payload, off) as usize;
    let value_len: usize = read_u32(payload, off + 4) as usize;
    let seq: u64 = read_u64(payload, off + 8);
    let kind: u8 = payload[off + 16];
    let key_start: usize = off + RECORD_HEADER;
    let key_end: usize = match key_start.checked_add(key_len) {
        Some(end) => end,
        None => {
            return Err(Error::SstCorrupt("clave de registro"));
        },
    };
    let val_end: usize = match key_end.checked_add(value_len) {
        Some(end) => end,
        None => {
            return Err(Error::SstCorrupt("valor de registro"));
        },
    };
    if key_end > payload.len() {
        return Err(Error::SstCorrupt("clave truncada"));
    }
    if val_end > payload.len() {
        return Err(Error::SstCorrupt("valor truncado"));
    }
    Ok(CellPos { key_start, key_end, val_end, seq, kind })
}

/// Appends a record to a payload.
pub fn encode_record(dst: &mut Vec<u8>, key: &[u8], seq: u64, kind: u8, value: &[u8]) -> (r: Result<
    (),
    Error,
>)
    ensures
        match r {
            Ok(()) => {
                &&& key@.len() <= u32::MAX && value@.len() <= u32::MAX
                &&& final(dst)@ == old(dst)@ + record_bytes(key@, seq, kind, value@)
            },
            Err(e) => {
                &&& final(dst)@ == old(dst)@
                &&& key@.len() > u32::MAX ==> e == Error::SstRecordTooLarge {
                    size: key@.len() as usize,
                }
                &&& key@.len() <= u32::MAX ==> value@.len() > u32::MAX && e
                    == Error::SstRecordTooLarge { size: value@.len() as usize }
            },
        },
{
    let key_len: u32 = match u32_len(key.len()) {
        Ok(n) => n,
        Err(e) => {
            return Err(e);
        },
    };
    let value_len: u32 = match u32_len(value.len()) {
        Ok(n) => n,
        Err(e) => {
            return Err(e);
        },
    };
    push_le(dst, key_len as u64, 4);
    push_le(dst, value_len as u64, 4);
    push_le(dst, seq, 8);
    dst.push(kind);
    push_all(dst, key);
    push_all(dst, value);
    assert(dst@ =~= old(dst)@ + record_bytes(key@, seq, kind, value@));
    Ok(())
}

/// A record read from a block.
#[derive(Clone, Debug, Eq, PartialEq)]
pub struct DecodedRecord {
    /// The key.
    pub key: Vec<u8>,
    /// The sequence number.
    pub seq: u64,
    /// The value; `None` is a delete.
    pub value: Option<Vec<u8>>,
}

impl View for DecodedRecord {
    type V = Row;

    open spec fn view(&self) -> Row {
        (
            self.key@,
            (
                self.seq,
                match self.value {
                    Some(v) => Some(v@),
                    None => None,
                },
            ),
        )
    }
}

/// The decoded records are `rows`, in order.
pub open spec fn are_rows(records: Seq<DecodedRecord>, rows: Seq<Row>) -> bool {
    &&& records.len() == rows.len()
    &&& forall|i: int| 0 <= i < records.len() ==> (#[trigger] records[i])@ == rows[i]
}

/// The records of a payload.
pub fn decode_records(payload: &[u8]) -> (r: Result<Vec<DecodedRecord>, Error>)
    ensures
        match r {
            Ok(records) => payload_rows(payload@, 0) is Ok && are_rows(
                records@,
                payload_rows(payload@, 0)->Ok_0,
            ),
            Err(e) => payload_rows(payload@, 0) == Err::<Seq<Row>, Error>(e),
        },
{
    let mut out: Vec<DecodedRecord> = Vec::new();
    let mut off: usize = 0;
    let ghost mut seen: Seq<Row> = seq![];
    let ghost total = payload_rows(payload@, 0);
    proof {
        if total is Ok {
            assert(seen + total->Ok_0 =~= total->Ok_0);
        }
    }
    while off < payload.len()
        invariant
            off <= payload.len(),
            total == payload_rows(payload@, 0),
            are_rows(out@, seen),
            match payload_rows(payload@, off as int) {
                Ok(rest) => total == Ok::<Seq<Row>, Error>(seen + rest),
                Err(e) => total == Err::<Seq<Row>, Error>(e),
            },
        decreases payload.len() - off,
    {
        let pos = match read_cell(payload, off) {
            Ok(pos) => pos,
            Err(e) => {
                return Err(e);
            },
        };
        let key = slice_to_vec(slice_subrange(payload, pos.key_start, pos.key_end));
        let value = slice_to_vec(slice_subrange(payload, pos.key_end, pos.val_end));
        let record = if pos.kind == KIND_PUT {
            DecodedRecord { key, seq: pos.seq, value: Some(value) }
        } else if pos.kind == KIND_TOMBSTONE {
            if value.len() != 0 {
                return Err(Error::SstCorrupt("tombstone con valor"));
            }
            DecodedRecord { key, seq: pos.seq, value: None }
        } else {
            return Err(Error::SstCorrupt("kind de registro"));
        };
        proof {
            if payload_rows(payload@, pos.val_end as int) is Ok {
                let tail = payload_rows(payload@, pos.val_end as int)->Ok_0;
                assert(seen + (seq![record@] + tail) =~= seen.push(record@) + tail);
            }
            seen = seen.push(record@);
        }
        out.push(record);
        off = pos.val_end;
    }
    proof {
        assert(seen + seq![] =~= seen);
    }
    Ok(out)
}

/// A length as a field of four bytes.
pub fn u32_len(n: usize) -> (r: Result<u32, Error>)
    ensures
        match r {
            Ok(len) => len == n,
            Err(e) => n > u32::MAX && e == Error::SstRecordTooLarge { size: n },
        },
{
    if n > 0xFFFF_FFFF {
        return Err(Error::SstRecordTooLarge { size: n });
    }
    Ok(n as u32)
}

// ---------------------------------------------------------------------------
// Laws
// ---------------------------------------------------------------------------

/// A block header survives being written and read back, whatever follows it.
pub proof fn law_block_header_roundtrip(
    crc: u32,
    payload_len: u32,
    record_count: u32,
    rest: Seq<u8>,
)
    ensures
        ({
            let bytes = block_header_bytes(BLOCK_MAGIC@, crc, payload_len, record_count) + rest;
            &&& check_block_header(bytes) == Ok::<(), Error>(())
            &&& u32_at(bytes, 4) == crc
            &&& u32_at(bytes, 8) == payload_len
            &&& u32_at(bytes, 12) == record_count
        }),
{
    let bytes = block_header_bytes(BLOCK_MAGIC@, crc, payload_len, record_count) + rest;
    lemma_le_bytes_len(crc as nat, 4);
    lemma_le_bytes_len(payload_len as nat, 4);
    lemma_le_bytes_len(record_count as nat, 4);
    assert(bytes.subrange(0, 4) =~= BLOCK_MAGIC@);
    assert(bytes.subrange(4, 8) =~= le_bytes(crc as nat, 4));
    assert(bytes.subrange(8, 12) =~= le_bytes(payload_len as nat, 4));
    assert(bytes.subrange(12, 16) =~= le_bytes(record_count as nat, 4));
    lemma_number_at(bytes, 4, crc as nat, 4);
    lemma_number_at(bytes, 8, payload_len as nat, 4);
    lemma_number_at(bytes, 12, record_count as nat, 4);
}

/// An index entry survives being written and read back, whatever follows it.
pub proof fn law_index_entry_roundtrip(
    block_offset: u64,
    block_len: u32,
    first_key_len: u32,
    rest: Seq<u8>,
)
    ensures
        ({
            let bytes = index_entry_bytes(block_offset, block_len, first_key_len) + rest;
            &&& bytes.len() == INDEX_ENTRY_SIZE + rest.len()
            &&& u64_at(bytes, 0) == block_offset
            &&& u32_at(bytes, 8) == block_len
            &&& u32_at(bytes, 12) == first_key_len
        }),
{
    let bytes = index_entry_bytes(block_offset, block_len, first_key_len) + rest;
    lemma_le_bytes_len(block_offset as nat, 8);
    lemma_le_bytes_len(block_len as nat, 4);
    lemma_le_bytes_len(first_key_len as nat, 4);
    assert(bytes.subrange(0, 8) =~= le_bytes(block_offset as nat, 8));
    assert(bytes.subrange(8, 12) =~= le_bytes(block_len as nat, 4));
    assert(bytes.subrange(12, 16) =~= le_bytes(first_key_len as nat, 4));
    lemma_number_at(bytes, 0, block_offset as nat, 8);
    lemma_number_at(bytes, 8, block_len as nat, 4);
    lemma_number_at(bytes, 12, first_key_len as nat, 4);
}

/// A footer with checksum `crc` survives being written and read back: it passes
/// the checks against that same CRC, and its numbers are the ones written.
pub proof fn law_footer_roundtrip(flags: u16, numbers: Seq<u64>, crc: u32)
    requires
        numbers.len() == 8,
    ensures
        ({
            let head = footer_head(SST_MAGIC@, SST_VERSION, flags, numbers);
            let bytes = footer_bytes(head, crc);
            &&& bytes.len() == FOOTER_SIZE
            &&& bytes.subrange(0, 72) == head
            &&& check_footer(bytes, crc) == Ok::<(), Error>(())
            &&& u16_at(bytes, 6) == flags
            &&& u32_at(bytes, 72) == crc
            &&& forall|i: int| 0 <= i < 8 ==> #[trigger] numbers[i] == u64_at(bytes, 8 + 8 * i)
        }),
{
    let head = footer_head(SST_MAGIC@, SST_VERSION, flags, numbers);
    let bytes = footer_bytes(head, crc);
    lemma_footer_head_len(SST_MAGIC@, SST_VERSION, flags, numbers);
    lemma_numbers_len(numbers);
    lemma_le_bytes_len(SST_VERSION as nat, 2);
    lemma_le_bytes_len(flags as nat, 2);
    lemma_le_bytes_len(crc as nat, 4);
    assert(bytes.subrange(0, 72) =~= head);
    assert(bytes.subrange(0, 4) =~= SST_MAGIC@);
    assert(bytes.subrange(4, 6) =~= le_bytes(SST_VERSION as nat, 2));
    assert(bytes.subrange(6, 8) =~= le_bytes(flags as nat, 2));
    assert(bytes.subrange(72, 76) =~= le_bytes(crc as nat, 4));
    lemma_number_at(bytes, 4, SST_VERSION as nat, 2);
    lemma_number_at(bytes, 6, flags as nat, 2);
    lemma_number_at(bytes, 72, crc as nat, 4);
    let pieces = number_pieces(numbers);
    assert(bytes.subrange(8, 72) =~= joined(pieces));
    assert forall|i: int| 0 <= i < 8 implies #[trigger] numbers[i] == u64_at(bytes, 8 + 8 * i) by {
        lemma_numbers_len(numbers.take(i));
        assert(number_pieces(numbers.take(i)) =~= pieces.take(i));
        lemma_le_bytes_len(numbers[i] as nat, 8);
        lemma_joined_piece(pieces, i);
        lemma_part_of_part(bytes, 8, joined(pieces), 8 * i, 8);
        lemma_number_at(bytes, 8 + 8 * i, numbers[i] as nat, 8);
    }
}

/// The entries of an index are those that were written into it.
pub proof fn law_index_roundtrip(rows: Seq<IndexRow>, overflow: Error)
    requires
        forall|i: int| 0 <= i < rows.len() ==> (#[trigger] rows[i]).key.len() <= u32::MAX,
        index_bytes(rows).len() <= usize::MAX,
    ensures
        index_rows(index_bytes(rows), 0, overflow) == Ok::<Seq<IndexRow>, Error>(rows),
{
    lemma_index_from(rows, 0, overflow);
    assert(index_pieces(rows).take(0) =~= seq![]);
    assert(rows.skip(0) =~= rows);
}

proof fn lemma_index_from(rows: Seq<IndexRow>, i: int, overflow: Error)
    requires
        0 <= i <= rows.len(),
        forall|i: int| 0 <= i < rows.len() ==> (#[trigger] rows[i]).key.len() <= u32::MAX,
        index_bytes(rows).len() <= usize::MAX,
    ensures
        index_rows(index_bytes(rows), joined(index_pieces(rows).take(i)).len() as int, overflow)
            == Ok::<Seq<IndexRow>, Error>(rows.skip(i)),
    decreases rows.len() - i,
{
    let bytes = index_bytes(rows);
    let pieces = index_pieces(rows);
    let off = joined(pieces.take(i)).len() as int;
    if i == rows.len() {
        assert(pieces.take(i) =~= pieces);
        assert(rows.skip(i) =~= seq![]);
    } else {
        let row = rows[i];
        let key_len = row.key.len() as int;
        let part = index_row_bytes(row);
        lemma_index_from(rows, i + 1, overflow);
        lemma_joined_piece(pieces, i);
        law_index_entry_roundtrip(row.block_offset, row.block_len, key_len as u32, row.key);
        lemma_part_of_part(bytes, off, part, 0, 8);
        lemma_part_of_part(bytes, off, part, 8, 4);
        lemma_part_of_part(bytes, off, part, 12, 4);
        lemma_part_of_part(bytes, off, part, 16, key_len);
        assert(part.subrange(16, 16 + key_len) =~= row.key);
        assert(rows.skip(i) =~= seq![row] + rows.skip(i + 1));
    }
}

/// A later entry of an index lies at a larger offset, and so does its key.
pub proof fn law_entry_offsets_grow(rows: Seq<IndexRow>, i: int, j: int)
    requires
        0 <= i < j,
    ensures
        entry_offset(rows, i) + INDEX_ENTRY_SIZE + rows[i].key.len() <= entry_offset(rows, j),
        entry_offset(rows, i) < entry_offset(rows, j),
    decreases j,
{
    if i < j - 1 {
        law_entry_offsets_grow(rows, i, j - 1);
    }
}

/// The entries that are read from an index lie where their offsets say: the key of
/// each is 16 bytes after the beginning of its entry.
pub proof fn law_index_layout(bytes: Seq<u8>, overflow: Error, i: int)
    requires
        index_rows(bytes, 0, overflow) is Ok,
        0 <= i < index_rows(bytes, 0, overflow)->Ok_0.len(),
    ensures
        ({
            let rows = index_rows(bytes, 0, overflow)->Ok_0;
            let key_off = entry_offset(rows, i) + INDEX_ENTRY_SIZE;
            &&& 0 <= entry_offset(rows, i)
            &&& key_off + rows[i].key.len() <= bytes.len()
            &&& bytes.subrange(key_off, key_off + rows[i].key.len()) == rows[i].key
            &&& u64_at(bytes, entry_offset(rows, i)) == rows[i].block_offset
            &&& u32_at(bytes, entry_offset(rows, i) + 8) == rows[i].block_len
            &&& u32_at(bytes, entry_offset(rows, i) + 12) == rows[i].key.len()
        }),
{
    let rows = index_rows(bytes, 0, overflow)->Ok_0;
    lemma_index_tail(bytes, overflow, i);
    let here = entry_offset(rows, i);
    let end = here + INDEX_ENTRY_SIZE + u32_at(bytes, here + 12);
    assert(rows.skip(i)[0] == rows[i]);
    assert(index_rows(bytes, end, overflow) is Ok);
}

/// After `i` entries an index goes on at the offset of entry `i`.
proof fn lemma_index_tail(bytes: Seq<u8>, overflow: Error, i: int)
    requires
        index_rows(bytes, 0, overflow) is Ok,
        0 <= i <= index_rows(bytes, 0, overflow)->Ok_0.len(),
    ensures
        ({
            let rows = index_rows(bytes, 0, overflow)->Ok_0;
            &&& 0 <= entry_offset(rows, i)
            &&& index_rows(bytes, entry_offset(rows, i), overflow) == Ok::<Seq<IndexRow>, Error>(
                rows.skip(i),
            )
        }),
    decreases i,
{
    let rows = index_rows(bytes, 0, overflow)->Ok_0;
    if i == 0 {
        assert(rows.skip(0) =~= rows);
    } else {
        lemma_index_tail(bytes, overflow, i - 1);
        let here = entry_offset(rows, i - 1);
        let end = here + INDEX_ENTRY_SIZE + u32_at(bytes, here + 12);
        let tail = index_rows(bytes, end, overflow)->Ok_0;
        assert(rows.skip(i - 1)[0] == rows[i - 1]);
        assert(rows.skip(i - 1).skip(1) =~= rows.skip(i));
        assert(rows.skip(i - 1).skip(1) =~= tail);
    }
}

/// The error for an overflow decides nothing else: whichever it is, the same
/// indexes are accepted, with the same entries.
pub proof fn law_index_readers_agree(bytes: Seq<u8>, off: int, a: Error, b: Error)
    ensures
        index_rows(bytes, off, a) is Ok <==> index_rows(bytes, off, b) is Ok,
        index_rows(bytes, off, a) is Ok ==> index_rows(bytes, off, a) == index_rows(bytes, off, b),
    decreases bytes.len() - off,
{
    if off < bytes.len() && bytes.len() - off >= INDEX_ENTRY_SIZE {
        let end = off + INDEX_ENTRY_SIZE + u32_at(bytes, off + 12);
        if end <= bytes.len() {
            law_index_readers_agree(bytes, end, a, b);
        }
    }
}

/// The bytes of a row: its header, its key and its value.
pub proof fn lemma_row_bytes_len(row: Row)
    ensures
        row_bytes(row).len() == RECORD_HEADER + row.0.len() + stored_value(row.1.1).len(),
{
    lemma_le_bytes_len(row.0.len(), 4);
    lemma_le_bytes_len(stored_value(row.1.1).len(), 4);
    lemma_le_bytes_len(row.1.0 as nat, 8);
}

/// One row more is one record more at the end.
pub proof fn lemma_rows_bytes_push(rows: Seq<Row>, row: Row)
    ensures
        rows_bytes(rows.push(row)) == rows_bytes(rows) + row_bytes(row),
{
    lemma_joined_push(row_pieces(rows), row_bytes(row));
    assert(row_pieces(rows.push(row)) =~= row_pieces(rows).push(row_bytes(row)));
}

/// Every row takes at least a record header.
pub proof fn lemma_rows_bytes_len(rows: Seq<Row>)
    ensures
        rows_bytes(rows).len() >= RECORD_HEADER * rows.len(),
    decreases rows.len(),
{
    if rows.len() > 0 {
        lemma_rows_bytes_len(rows.drop_last());
        lemma_rows_bytes_push(rows.drop_last(), rows.last());
        lemma_row_bytes_len(rows.last());
        assert(rows.drop_last().push(rows.last()) =~= rows);
    }
}

/// Where record `i` of a payload begins.
pub open spec fn row_offset(rows: Seq<Row>, i: int) -> int {
    rows_bytes(rows.take(i)).len() as int
}

/// A record that was written into a payload is read from it.
pub proof fn lemma_cell_of_row(rows: Seq<Row>, i: int)
    requires
        0 <= i < rows.len(),
        row_fits(rows[i]),
        rows_bytes(rows).len() <= usize::MAX,
    ensures
        0 <= row_offset(rows, i) < row_offset(rows, i + 1) <= rows_bytes(rows).len(),
        cell_at(rows_bytes(rows), row_offset(rows, i)) == Ok::<Cell, Error>(
            Cell {
                key: rows[i].0,
                seq: rows[i].1.0,
                kind: kind_of(rows[i].1.1),
                value: stored_value(rows[i].1.1),
                next: row_offset(rows, i + 1),
            },
        ),
{
    reveal(cell_at);
    let row = rows[i];
    let payload = rows_bytes(rows);
    let off = row_offset(rows, i);
    let key = row.0;
    let value = stored_value(row.1.1);
    let part = row_bytes(row);
    lemma_joined_piece(row_pieces(rows), i);
    assert(row_pieces(rows).take(i) =~= row_pieces(rows.take(i)));
    assert(row_pieces(rows).take(i + 1) =~= row_pieces(rows.take(i + 1)));
    assert(payload.subrange(off, off + part.len()) == part);
    lemma_row_bytes_len(row);
    lemma_le_bytes_len(key.len(), 4);
    lemma_le_bytes_len(value.len(), 4);
    lemma_le_bytes_len(row.1.0 as nat, 8);
    let k = key.len() as int;
    let v = value.len() as int;
    assert(part.subrange(0, 4) =~= le_bytes(key.len(), 4));
    assert(part.subrange(4, 8) =~= le_bytes(value.len(), 4));
    assert(part.subrange(8, 16) =~= le_bytes(row.1.0 as nat, 8));
    assert(part[16] == kind_of(row.1.1));
    assert(part.subrange(17, 17 + k) =~= key);
    assert(part.subrange(17 + k, 17 + k + v) =~= value);
    lemma_part_of_part(payload, off, part, 0, 4);
    lemma_part_of_part(payload, off, part, 4, 4);
    lemma_part_of_part(payload, off, part, 8, 8);
    lemma_part_of_part(payload, off, part, 17, k);
    lemma_part_of_part(payload, off, part, 17 + k, v);
    assert(payload[off + 16] == payload.subrange(off, off + part.len())[16]);
    lemma_number_at(payload, off, key.len(), 4);
    lemma_number_at(payload, off + 4, value.len(), 4);
    lemma_number_at(payload, off + 8, row.1.0 as nat, 8);
}

/// The records of a payload are the rows that were written into it.
pub proof fn law_records_roundtrip(rows: Seq<Row>)
    requires
        forall|i: int| 0 <= i < rows.len() ==> row_fits(#[trigger] rows[i]),
        rows_bytes(rows).len() <= usize::MAX,
    ensures
        payload_rows(rows_bytes(rows), 0) == Ok::<Seq<Row>, Error>(rows),
{
    lemma_records_from(rows, 0);
    assert(rows.take(0) =~= seq![]);
    assert(row_pieces(rows.take(0)) =~= seq![]);
    assert(rows.skip(0) =~= rows);
}

proof fn lemma_records_from(rows: Seq<Row>, i: int)
    requires
        0 <= i <= rows.len(),
        forall|i: int| 0 <= i < rows.len() ==> row_fits(#[trigger] rows[i]),
        rows_bytes(rows).len() <= usize::MAX,
    ensures
        payload_rows(rows_bytes(rows), row_offset(rows, i)) == Ok::<Seq<Row>, Error>(rows.skip(i)),
    decreases rows.len() - i,
{
    if i == rows.len() {
        assert(rows.take(i) =~= rows);
        assert(rows.skip(i) =~= seq![]);
    } else {
        lemma_cell_of_row(rows, i);
        lemma_records_from(rows, i + 1);
        assert(rows.skip(i) =~= seq![rows[i]] + rows.skip(i + 1));
        if rows[i].1.1 is None {
            assert(rows[i] == (rows[i].0, (rows[i].1.0, None::<Seq<u8>>)));
        }
    }
}

proof fn lemma_numbers_len(numbers: Seq<u64>)
    ensures
        joined(number_pieces(numbers)).len() == 8 * numbers.len(),
    decreases numbers.len(),
{
    if numbers.len() > 0 {
        lemma_numbers_len(numbers.drop_last());
        lemma_le_bytes_len(numbers.last() as nat, 8);
        assert(number_pieces(numbers).drop_last() =~= number_pieces(numbers.drop_last()));
    }
}

proof fn lemma_footer_head_len(magic: Seq<u8>, version: u16, flags: u16, numbers: Seq<u64>)
    requires
        magic.len() == 4,
        numbers.len() == 8,
    ensures
        footer_head(magic, version, flags, numbers).len() == 72,
{
    lemma_le_bytes_len(version as nat, 2);
    lemma_le_bytes_len(flags as nat, 2);
    lemma_numbers_len(numbers);
}

} // verus!
