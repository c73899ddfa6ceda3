//! Reading a table: Bloom filter, then the index, then one block. A value that
//! is found is a part of the file's bytes, not a copy.

use crate::bytes::{
    bytes_equal, bytes_less, lemma_lex_asymmetric, lemma_lex_total, lemma_lex_transitive,
    lemma_part_of_part, lex_le, lex_lt, u32_at, u64_at,
};
use crate::crc::{crc32, crc_of};
use crate::error::Error;
use crate::index::bloom::{parse_filter, Bloom, Filter};
use crate::sstable::{
    are_index_rows, cell_at, check_block_header, check_footer_of, entry_offset, footer_part,
    index_rows, is_index_row, law_entry_offsets_grow, law_index_layout, law_index_readers_agree,
    read_cell, BlockHeader, Cell, IndexEntry, IndexRow, SstFooter, BLOCK_HEADER_SIZE,
    INDEX_ENTRY_SIZE, KIND_PUT, KIND_TOMBSTONE,
};
use crate::types::{SeqNum, Version};
use vstd::prelude::*;
use vstd::slice::slice_subrange;

verus! {

// ---------------------------------------------------------------------------
// What a file says
// ---------------------------------------------------------------------------

/// The bytes `offset .. offset + len` of a file.
pub open spec fn file_range(file: Seq<u8>, offset: u64, len: u64) -> Result<Seq<u8>, Error> {
    if offset > usize::MAX || len > usize::MAX {
        Err(Error::SstCorrupt("offset no cabe en usize"))
    } else if offset + len > usize::MAX {
        Err(Error::SstCorrupt("rango overflow"))
    } else if offset + len > file.len() {
        Err(Error::SstCorrupt("rango fuera del mmap"))
    } else {
        Ok(file.subrange(offset as int, offset + len))
    }
}

/// A table as it was opened: the file, the Bloom filter and the index.
#[verifier::ext_equal]
pub struct Table {
    pub file: Seq<u8>,
    pub filter: Filter,
    pub index: Seq<IndexRow>,
}

/// The table in a file whose footer says where index and filter lie and how many
/// blocks there are.
pub open spec fn table_with(
    file: Seq<u8>,
    index_offset: u64,
    index_len: u64,
    bloom_offset: u64,
    bloom_len: u64,
    block_count: u64,
) -> Result<Table, Error> {
    match file_range(file, index_offset, index_len) {
        Err(e) => Err(e),
        Ok(index_part) => match file_range(file, bloom_offset, bloom_len) {
            Err(e) => Err(e),
            Ok(bloom_part) => match parse_filter(bloom_part) {
                Err(e) => Err(e),
                Ok(filter) => match index_rows(index_part, 0, Error::SstCorrupt("first_key_len")) {
                    Err(e) => Err(e),
                    Ok(index) => if index.len() != block_count {
                        Err(Error::SstCorrupt("block_count no coincide con el índice"))
                    } else {
                        Ok(Table { file, filter, index })
                    },
                },
            },
        },
    }
}

/// The table in a file.
pub open spec fn table_in(file: Seq<u8>) -> Result<Table, Error> {
    match check_footer_of(file) {
        Err(e) => Err(e),
        Ok(_) => {
            let footer = footer_part(file);
            table_with(
                file,
                u64_at(footer, 8),
                u64_at(footer, 16),
                u64_at(footer, 24),
                u64_at(footer, 32),
                u64_at(footer, 48),
            )
        },
    }
}

/// A binary search in `index[lo .. hi]` for the first entry whose key exceeds
/// `key`.
pub open spec fn bisect(index: Seq<IndexRow>, key: Seq<u8>, lo: int, hi: int) -> int
    decreases hi - lo,
{
    if lo >= hi {
        lo
    } else {
        let mid = lo + (hi - lo) / 2;
        if lex_le(index[mid].key, key) {
            bisect(index, key, mid + 1, hi)
        } else {
            bisect(index, key, lo, mid)
        }
    }
}

/// What the record says that was found for its key.
pub open spec fn cell_version(cell: Cell) -> Result<Version, Error> {
    if cell.kind == KIND_PUT {
        Ok((cell.seq, Some(cell.value)))
    } else if cell.kind == KIND_TOMBSTONE {
        Ok((cell.seq, None))
    } else {
        Err(Error::SstCorrupt("kind de registro desconocido"))
    }
}

/// Looks for `key` in a payload from offset `off` on, up to the first larger key.
pub open spec fn scan_from(payload: Seq<u8>, off: int, key: Seq<u8>) -> Result<
    Option<Version>,
    Error,
>
    decreases payload.len() - off,
    via scan_ends
{
    if off >= payload.len() {
        Ok(None)
    } else {
        match cell_at(payload, off) {
            Err(e) => Err(e),
            Ok(cell) => if cell.key == key {
                match cell_version(cell) {
                    Ok(version) => Ok(Some(version)),
                    Err(e) => Err(e),
                }
            } else if lex_lt(key, cell.key) {
                Ok(None)
            } else {
                scan_from(payload, cell.next, key)
            },
        }
    }
}

#[via_fn]
proof fn scan_ends(payload: Seq<u8>, off: int, key: Seq<u8>) {
    reveal(cell_at);
}

/// The payload of a block.
pub open spec fn block_payload(block: Seq<u8>) -> Result<Seq<u8>, Error> {
    match check_block_header(block) {
        Err(e) => Err(e),
        Ok(_) => {
            let end = BLOCK_HEADER_SIZE + u32_at(block, 8);
            if end > usize::MAX {
                Err(Error::SstCorrupt("payload_len"))
            } else if end > block.len() {
                Err(Error::SstCorrupt("payload truncado"))
            } else {
                Ok(block.subrange(BLOCK_HEADER_SIZE as int, end))
            }
        },
    }
}

/// Looks for `key` in a block whose payload has CRC-32 `crc`.
pub open spec fn block_find(block: Seq<u8>, crc: u32, key: Seq<u8>) -> Result<
    Option<Version>,
    Error,
> {
    match block_payload(block) {
        Err(e) => Err(e),
        Ok(payload) => if crc != u32_at(block, 4) {
            Err(Error::SstCorrupt("CRC de bloque"))
        } else {
            scan_from(payload, 0, key)
        },
    }
}

/// The bytes of the block that an index entry points to.
pub open spec fn block_at(file: Seq<u8>, row: IndexRow) -> Result<Seq<u8>, Error> {
    if row.block_offset > usize::MAX {
        Err(Error::SstCorrupt("offset no cabe en usize"))
    } else if row.block_offset + row.block_len > usize::MAX {
        Err(Error::SstCorrupt("block_len"))
    } else if row.block_offset + row.block_len > file.len() {
        Err(Error::SstCorrupt("bloque fuera de rango"))
    } else {
        Ok(file.subrange(row.block_offset as int, row.block_offset + row.block_len))
    }
}

impl Table {
    /// What the table says of `key`.
    #[verifier::opaque]
    pub open spec fn lookup(self, key: Seq<u8>) -> Result<Option<Version>, Error> {
        if key.len() == 0 {
            Err(Error::EmptyKey)
        } else if !self.filter.may_contain(key) {
            Ok(None)
        } else {
            let p = bisect(self.index, key, 0, self.index.len() as int);
            if p == 0 {
                Ok(None)
            } else {
                match block_at(self.file, self.index[p - 1]) {
                    Err(e) => Err(e),
                    Ok(block) => {
                        let crc = match block_payload(block) {
                            Ok(payload) => crc32(payload),
                            Err(_) => 0,
                        };
                        block_find(block, crc, key)
                    },
                }
            }
        }
    }
}

// ---------------------------------------------------------------------------
// Lookups
// ---------------------------------------------------------------------------

/// What a table says of a key. A value is a part of the file.
#[derive(Clone, Copy, Debug, Eq, PartialEq)]
pub enum SstLookup<'a> {
    /// A value, possibly empty.
    Alive {
        /// Number of the write.
        seq: SeqNum,
        /// The bytes of the value, inside the file.
        value: &'a [u8],
    },
    /// A delete.
    Deleted(SeqNum),
    /// Neither.
    Missing,
}

impl<'a> View for SstLookup<'a> {
    type V = Option<Version>;

    open spec fn view(&self) -> Option<Version> {
        match self {
            SstLookup::Alive { seq, value } => Some((seq@, Some(value@))),
            SstLookup::Deleted(seq) => Some((seq@, None)),
            SstLookup::Missing => None,
        }
    }
}

impl<'a> SstLookup<'a> {
    /// `true` iff the table knows nothing of the key.
    pub fn is_missing(self) -> (r: bool)
        ensures
            r == (self is Missing),
            r == (self@ is None),
    {
        match self {
            SstLookup::Missing => true,
            _ => false,
        }
    }

    /// The value, if the key has one.
    pub fn value(self) -> (r: Option<&'a [u8]>)
        ensures
            match r {
                Some(value) => crate::memtable::live_value(self@) == Some(value@),
                None => crate::memtable::live_value(self@) is None,
            },
    {
        match self {
            SstLookup::Alive { seq: _, value } => Some(value),
            _ => None,
        }
    }
}

/// Looks for `key` in the sorted records of a payload.
pub fn scan_sorted_payload<'a>(payload: &'a [u8], key: &[u8]) -> (r: Result<SstLookup<'a>, Error>)
    ensures
        match r {
            Ok(found) => scan_from(payload@, 0, key@) == Ok::<Option<Version>, Error>(found@),
            Err(e) => scan_from(payload@, 0, key@) == Err::<Option<Version>, Error>(e),
        },
{
    let mut off: usize = 0;
    while off < payload.len()
        invariant
            off <= payload.len(),
            scan_from(payload@, 0, key@) == scan_from(payload@, off as int, key@),
        decreases payload.len() - off,
    {
        let pos = match read_cell(payload, off) {
            Ok(pos) => pos,
            Err(e) => {
                return Err(e);
            },
        };
        let rec_key = slice_subrange(payload, pos.key_start, pos.key_end);
        if bytes_equal(rec_key, key) {
            if pos.kind == KIND_PUT {
                return Ok(
                    SstLookup::Alive {
                        seq: SeqNum::new(pos.seq),
                        value: slice_subrange(payload, pos.key_end, pos.val_end),
                    },
                );
            }
            if pos.kind == KIND_TOMBSTONE {
                return Ok(SstLookup::Deleted(SeqNum::new(pos.seq)));
            }
            return Err(Error::SstCorrupt("kind de registro desconocido"));
        }
        if bytes_less(key, rec_key) {
            return Ok(SstLookup::Missing);
        }
        off = pos.val_end;
    }
    Ok(SstLookup::Missing)
}

/// The payload of a block, after a check of the header.
fn payload_of<'a>(block: &'a [u8]) -> (r: Result<(BlockHeader, &'a [u8]), Error>)
    ensures
        match r {
            Ok((header, payload)) => block_payload(block@) == Ok::<Seq<u8>, Error>(payload@)
                && header.crc32 == u32_at(block@, 4),
            Err(e) => block_payload(block@) == Err::<Seq<u8>, Error>(e),
        },
{
    let header = BlockHeader::decode(block)?;
    let end: usize = match BLOCK_HEADER_SIZE.checked_add(header.payload_len as usize) {
        Some(end) => end,
        None => {
            return Err(Error::SstCorrupt("payload_len"));
        },
    };
    if end > block.len() {
        return Err(Error::SstCorrupt("payload truncado"));
    }
    Ok((header, slice_subrange(block, BLOCK_HEADER_SIZE, end)))
}

/// Looks for `key` in a block whose payload has CRC-32 `crc`.
pub fn lookup_with_crc<'a>(block: &'a [u8], crc: u32, key: &[u8]) -> (r: Result<
    SstLookup<'a>,
    Error,
>)
    ensures
        match r {
            Ok(found) => block_find(block@, crc, key@) == Ok::<Option<Version>, Error>(found@),
            Err(e) => block_find(block@, crc, key@) == Err::<Option<Version>, Error>(e),
        },
{
    let (header, payload) = payload_of(block)?;
    if crc != header.crc32 {
        return Err(Error::SstCorrupt("CRC de bloque"));
    }
    scan_sorted_payload(payload, key)
}

// ---------------------------------------------------------------------------
// The reader
// ---------------------------------------------------------------------------

/// Where a block and its first key lie in the file.
pub struct IndexSlot {
    /// Offset of the block's first key.
    pub first_key_off: usize,
    /// Bytes of the block's first key.
    pub first_key_len: usize,
    /// Offset of the block.
    pub block_offset: u64,
    /// Bytes of header and payload.
    pub block_len: u32,
}

impl IndexSlot {
    /// The slot points to what `row` says.
    spec fn is_row(self, file: Seq<u8>, row: IndexRow) -> bool {
        &&& self.first_key_off + self.first_key_len <= file.len()
        &&& file.subrange(
            self.first_key_off as int,
            self.first_key_off + self.first_key_len,
        ) == row.key
        &&& self.block_offset == row.block_offset
        &&& self.block_len == row.block_len
    }
}

/// The slots point to `rows`, in order.
spec fn are_slots(slots: Seq<IndexSlot>, file: Seq<u8>, rows: Seq<IndexRow>) -> bool {
    &&& slots.len() == rows.len()
    &&& forall|i: int| 0 <= i < slots.len() ==> (#[trigger] slots[i]).is_row(file, rows[i])
}

/// The entries of an index that lies at offset `base` of a file, from offset `off`
/// of the index on.
pub open spec fn slot_rows(bytes: Seq<u8>, base: int, off: int) -> Result<Seq<IndexRow>, Error>
    decreases bytes.len() - off,
{
    if off >= bytes.len() {
        Ok(seq![])
    } else if bytes.len() - off < INDEX_ENTRY_SIZE {
        Err(Error::SstCorrupt("IndexEntry truncada"))
    } else {
        let end = off + INDEX_ENTRY_SIZE + u32_at(bytes, off + 12);
        if end > usize::MAX {
            Err(Error::SstCorrupt("first_key_len"))
        } else if end > bytes.len() {
            Err(Error::SstCorrupt("first-key truncada"))
        } else if base + off + INDEX_ENTRY_SIZE > usize::MAX {
            Err(Error::SstCorrupt("offset de first-key"))
        } else {
            let row = IndexRow {
                key: bytes.subrange(off + INDEX_ENTRY_SIZE, end),
                block_offset: u64_at(bytes, off),
                block_len: u32_at(bytes, off + 8),
            };
            match slot_rows(bytes, base, end) {
                Ok(rest) => Ok(seq![row] + rest),
                Err(e) => Err(e),
            }
        }
    }
}

/// The entries of an index that lies at offset `index_file_offset` of a file.
pub open spec fn parsed_index(bytes: Seq<u8>, index_file_offset: u64) -> Result<
    Seq<IndexRow>,
    Error,
> {
    if index_file_offset > usize::MAX {
        Err(Error::SstCorrupt("offset no cabe en usize"))
    } else {
        slot_rows(bytes, index_file_offset as int, 0)
    }
}

/// The slots hold what `rows` say: where each block lies, and that its first key
/// lies 16 bytes after the beginning of its entry in an index at offset `base`.
pub open spec fn slots_lie(slots: Seq<IndexSlot>, base: int, rows: Seq<IndexRow>) -> bool {
    &&& slots.len() == rows.len()
    &&& forall|i: int|
        #![trigger slots[i]]
        0 <= i < slots.len() ==> {
            &&& slots[i].first_key_off == base + entry_offset(rows, i) + INDEX_ENTRY_SIZE
            &&& slots[i].first_key_len == rows[i].key.len()
            &&& slots[i].block_offset == rows[i].block_offset
            &&& slots[i].block_len == rows[i].block_len
        }
}

/// An open table. `data` are the bytes of the file, which does not change while
/// the reader lives.
pub struct SstReader<'a> {
    data: &'a [u8],
    bloom: Bloom,
    index: Vec<IndexSlot>,
    rows: Ghost<Seq<IndexRow>>,
}

impl<'a> View for SstReader<'a> {
    type V = Table;

    closed spec fn view(&self) -> Table {
        Table { file: self.data@, filter: self.bloom@, index: self.rows@ }
    }
}

impl<'a> SstReader<'a> {
    /// The filter is well-formed and the slots lie in the file.
    pub closed spec fn wf(self) -> bool {
        &&& self.bloom.wf()
        &&& are_slots(self.index@, self.data@, self.rows@)
    }

    /// Opens the table in `data`: checks the footer and reads index and filter.
    pub fn open(data: &'a [u8]) -> (r: Result<Self, Error>)
        ensures
            match r {
                Ok(reader) => reader.wf() && table_in(data@) == Ok::<Table, Error>(reader@),
                Err(e) => table_in(data@) == Err::<Table, Error>(e),
            },
    {
        let footer = SstFooter::read_from_file(data)?;
        Self::with_footer(data, &footer)
    }

    /// Opens the table in `data`, whose footer says what `footer` says.
    pub fn with_footer(data: &'a [u8], footer: &SstFooter) -> (r: Result<Self, Error>)
        ensures
            match r {
                Ok(reader) => reader.wf() && table_with(
                    data@,
                    footer.index_offset,
                    footer.index_len,
                    footer.bloom_offset,
                    footer.bloom_len,
                    footer.block_count,
                ) == Ok::<Table, Error>(reader@),
                Err(e) => table_with(
                    data@,
                    footer.index_offset,
                    footer.index_len,
                    footer.bloom_offset,
                    footer.bloom_len,
                    footer.block_count,
                ) == Err::<Table, Error>(e),
            },
    {
        let index_bytes = slice_range(data, footer.index_offset, footer.index_len)?;
        let bloom_bytes = slice_range(data, footer.bloom_offset, footer.bloom_len)?;
        let bloom = Bloom::from_bytes(bloom_bytes)?;
        let ghost base = footer.index_offset as int;
        proof {
            assert(base + index_bytes@.len() <= data.len());
            law_slot_rows(index_bytes@, base, 0);
        }
        let index = parse_index(index_bytes, footer.index_offset)?;
        let ghost rows = index_rows(index_bytes@, 0, Error::SstCorrupt("first_key_len"))->Ok_0;
        proof {
            assert forall|i: int| 0 <= i < index@.len() implies (#[trigger] index@[i]).is_row(
                data@,
                rows[i],
            ) by {
                law_index_layout(index_bytes@, Error::SstCorrupt("first_key_len"), i);
                lemma_part_of_part(
                    data@,
                    base,
                    index_bytes@,
                    entry_offset(rows, i) + INDEX_ENTRY_SIZE,
                    rows[i].key.len() as int,
                );
            }
        }
        if index.len() as u64 != footer.block_count {
            return Err(Error::SstCorrupt("block_count no coincide con el índice"));
        }
        Ok(SstReader { data, bloom, index, rows: Ghost(rows) })
    }

    /// Looks for `key`.
    pub fn get(&self, key: &[u8]) -> (r: Result<SstLookup<'a>, Error>)
        requires
            self.wf(),
        ensures
            match r {
                Ok(found) => self@.lookup(key@) == Ok::<Option<Version>, Error>(found@),
                Err(e) => self@.lookup(key@) == Err::<Option<Version>, Error>(e),
            },
    {
        proof {
            reveal(Table::lookup);
        }
        if key.len() == 0 {
            return Err(Error::EmptyKey);
        }
        if !self.bloom.may_contain(key) {
            return Ok(SstLookup::Missing);
        }
        let p: usize = self.find_block(key);
        if p == 0 {
            return Ok(SstLookup::Missing);
        }
        self.lookup_in_block(p - 1, key)
    }

    /// The first key of block `i`.
    fn first_key(&self, i: usize) -> (key: &[u8])
        requires
            self.wf(),
            i < self@.index.len(),
        ensures
            key@ == self@.index[i as int].key,
    {
        let slot = &self.index[i];
        assert(self.index@[i as int].is_row(self.data@, self.rows@[i as int]));
        assert(slot.first_key_off + slot.first_key_len <= self.data.len());
        slice_subrange(self.data, slot.first_key_off, slot.first_key_off + slot.first_key_len)
    }

    /// The number of the first block whose first key exceeds `key`; the block
    /// before it is the one that may hold the key.
    fn find_block(&self, key: &[u8]) -> (p: usize)
        requires
            self.wf(),
        ensures
            p == bisect(self@.index, key@, 0, self@.index.len() as int),
            p <= self@.index.len(),
    {
        let mut lo: usize = 0;
        let mut hi: usize = self.index.len();
        while lo < hi
            invariant
                self.wf(),
                lo <= hi <= self@.index.len(),
                bisect(self@.index, key@, lo as int, hi as int) == bisect(
                    self@.index,
                    key@,
                    0,
                    self@.index.len() as int,
                ),
            decreases hi - lo,
        {
            let mid: usize = lo + (hi - lo) / 2;
            let first = self.first_key(mid);
            proof {
                lemma_lex_total(first@, key@);
                if lex_lt(key@, first@) {
                    lemma_lex_asymmetric(key@, first@);
                }
            }
            if !bytes_less(key, first) {
                lo = mid + 1;
            } else {
                hi = mid;
            }
        }
        lo
    }

    /// Looks for `key` in block `i`.
    fn lookup_in_block(&self, i: usize, key: &[u8]) -> (r: Result<SstLookup<'a>, Error>)
        requires
            self.wf(),
            i < self@.index.len(),
        ensures
            ({
                let found = match block_at(self@.file, self@.index[i as int]) {
                    Err(e) => Err(e),
                    Ok(block) => {
                        let crc = match block_payload(block) {
                            Ok(payload) => crc32(payload),
                            Err(_) => 0,
                        };
                        block_find(block, crc, key@)
                    },
                };
                match r {
                    Ok(lookup) => found == Ok::<Option<Version>, Error>(lookup@),
                    Err(e) => found == Err::<Option<Version>, Error>(e),
                }
            }),
    {
        let slot = &self.index[i];
        assert(self.index@[i as int].is_row(self.data@, self.rows@[i as int]));
        let start: usize = usize_off(slot.block_offset)?;
        let end: usize = match start.checked_add(slot.block_len as usize) {
            Some(end) => end,
            None => {
                return Err(Error::SstCorrupt("block_len"));
            },
        };
        if end > self.data.len() {
            return Err(Error::SstCorrupt("bloque fuera de rango"));
        }
        let block = slice_subrange(self.data, start, end);
        let (_, payload) = payload_of(block)?;
        let crc: u32 = crc_of(payload);
        lookup_with_crc(block, crc, key)
    }
}

/// An offset as a machine word.
fn usize_off(n: u64) -> (r: Result<usize, Error>)
    ensures
        match r {
            Ok(off) => off == n,
            Err(e) => n > usize::MAX && e == Error::SstCorrupt("offset no cabe en usize"),
        },
{
    if n > usize::MAX as u64 {
        return Err(Error::SstCorrupt("offset no cabe en usize"));
    }
    Ok(n as usize)
}

/// The bytes `offset .. offset + len` of `data`.
fn slice_range<'a>(data: &'a [u8], offset: u64, len: u64) -> (r: Result<&'a [u8], Error>)
    ensures
        match r {
            Ok(part) => file_range(data@, offset, len) == Ok::<Seq<u8>, Error>(part@),
            Err(e) => file_range(data@, offset, len) == Err::<Seq<u8>, Error>(e),
        },
{
    let start: usize = usize_off(offset)?;
    let n: usize = usize_off(len)?;
    let end: usize = match start.checked_add(n) {
        Some(end) => end,
        None => {
            return Err(Error::SstCorrupt("rango overflow"));
        },
    };
    if end > data.len() {
        return Err(Error::SstCorrupt("rango fuera del mmap"));
    }
    Ok(slice_subrange(data, start, end))
}

/// The slots of the index `bytes`, which lies at offset `index_file_offset` of the
/// file; keys are not copied.
pub fn parse_index(bytes: &[u8], index_file_offset: u64) -> (r: Result<Vec<IndexSlot>, Error>)
    ensures
        match r {
            Ok(slots) => parsed_index(bytes@, index_file_offset) is Ok && slots_lie(
                slots@,
                index_file_offset as int,
                parsed_index(bytes@, index_file_offset)->Ok_0,
            ),
            Err(e) => parsed_index(bytes@, index_file_offset) == Err::<Seq<IndexRow>, Error>(e),
        },
{
    let base: usize = usize_off(index_file_offset)?;
    let ghost total = slot_rows(bytes@, base as int, 0);
    let ghost mut seen: Seq<IndexRow> = seq![];
    let mut slots: Vec<IndexSlot> = Vec::new();
    let mut off: usize = 0;
    proof {
        if total is Ok {
            assert(seen + total->Ok_0 =~= total->Ok_0);
        }
    }
    while off < bytes.len()
        invariant
            off <= bytes.len(),
            total == slot_rows(bytes@, base as int, 0),
            total == parsed_index(bytes@, index_file_offset),
            base == index_file_offset,
            slots_lie(slots@, base as int, seen),
            off == entry_offset(seen, seen.len() as int),
            match slot_rows(bytes@, base as int, off as int) {
                Ok(rest) => total == Ok::<Seq<IndexRow>, Error>(seen + rest),
                Err(e) => total == Err::<Seq<IndexRow>, Error>(e),
            },
        decreases bytes.len() - off,
    {
        let ghost here = off as int;
        let rest = slice_subrange(bytes, off, bytes.len());
        let entry = match IndexEntry::decode(rest) {
            Ok(entry) => entry,
            Err(e) => {
                return Err(e);
            },
        };
        proof {
            assert(rest@.subrange(0, 8) =~= bytes@.subrange(here, here + 8));
            assert(rest@.subrange(8, 12) =~= bytes@.subrange(here + 8, here + 12));
            assert(rest@.subrange(12, 16) =~= bytes@.subrange(here + 12, here + 16));
        }
        let key_start: usize = off + INDEX_ENTRY_SIZE;
        let key_len: usize = entry.first_key_len as usize;
        let key_end: usize = match key_start.checked_add(key_len) {
            Some(end) => end,
            None => {
                return Err(Error::SstCorrupt("first_key_len"));
            },
        };
        if key_end > bytes.len() {
            return Err(Error::SstCorrupt("first-key truncada"));
        }
        let first_key_off: usize = match base.checked_add(key_start) {
            Some(first) => first,
            None => {
                return Err(Error::SstCorrupt("offset de first-key"));
            },
        };
        let slot = IndexSlot {
            first_key_off,
            first_key_len: key_len,
            block_offset: entry.block_offset,
            block_len: entry.block_len,
        };
        proof {
            let row = IndexRow {
                key: bytes@.subrange(here + 16, key_end as int),
                block_offset: u64_at(bytes@, here),
                block_len: u32_at(bytes@, here + 8),
            };
            if slot_rows(bytes@, base as int, key_end as int) is Ok {
                let tail = slot_rows(bytes@, base as int, key_end as int)->Ok_0;
                assert(seen + (seq![row] + tail) =~= seen.push(row) + tail);
            }
            assert forall|i: int| 0 <= i <= seen.len() implies #[trigger] entry_offset(
                seen.push(row),
                i,
            ) == entry_offset(seen, i) by {
                lemma_entry_offset_push(seen, row, i);
            }
            let n = seen.len() as int;
            seen = seen.push(row);
            assert(entry_offset(seen, n + 1) == entry_offset(seen, n) + 16 + seen[n].key.len());
        }
        slots.push(slot);
        off = key_end;
    }
    proof {
        assert(seen + seq![] =~= seen);
    }
    Ok(slots)
}

/// An entry more does not move the entries before it.
proof fn lemma_entry_offset_push(rows: Seq<IndexRow>, row: IndexRow, i: int)
    requires
        0 <= i <= rows.len(),
    ensures
        entry_offset(rows.push(row), i) == entry_offset(rows, i),
    decreases i,
{
    if i > 0 {
        lemma_entry_offset_push(rows, row, i - 1);
    }
}

// ---------------------------------------------------------------------------
// Laws
// ---------------------------------------------------------------------------

/// Where all offsets fit a machine word, the place of an index in the file decides
/// nothing about its entries.
pub proof fn law_slot_rows(bytes: Seq<u8>, base: int, off: int)
    requires
        base + bytes.len() <= usize::MAX,
    ensures
        slot_rows(bytes, base, off) == index_rows(bytes, off, Error::SstCorrupt("first_key_len")),
    decreases bytes.len() - off,
{
    if off < bytes.len() && bytes.len() - off >= INDEX_ENTRY_SIZE {
        let end = off + INDEX_ENTRY_SIZE + u32_at(bytes, off + 12);
        if end <= bytes.len() {
            law_slot_rows(bytes, base, end);
        }
    }
}

/// The two readers of an index agree wherever all offsets fit a machine word:
/// [`parse_index`] accepts what [`decode_index`](crate::sstable::decode_index)
/// accepts. What the one gives as slots and the other as entries are as many, with
/// the same fields; each slot points to the key of its entry, and later slots point
/// further.
pub proof fn law_slots_match_entries(
    bytes: Seq<u8>,
    index_file_offset: u64,
    slots: Seq<IndexSlot>,
    entries: Seq<(Vec<u8>, IndexEntry)>,
)
    requires
        index_file_offset + bytes.len() <= usize::MAX,
    ensures
        ({
            let parsed = parsed_index(bytes, index_file_offset);
            let decoded = index_rows(bytes, 0, Error::SstCorrupt("clave de índice"));
            let base = index_file_offset as int;
            &&& parsed is Ok <==> decoded is Ok
            &&& parsed is Ok && slots_lie(slots, base, parsed->Ok_0) && are_index_rows(
                entries,
                decoded->Ok_0,
            ) ==> {
                &&& slots.len() == entries.len()
                &&& forall|i: int|
                    #![trigger slots[i]]
                    #![trigger entries[i]]
                    0 <= i < slots.len() ==> {
                        let o = slots[i].first_key_off - base;
                        &&& slots[i].block_offset == entries[i].1.block_offset
                        &&& slots[i].block_len == entries[i].1.block_len
                        &&& slots[i].first_key_len == entries[i].1.first_key_len
                        &&& 0 <= o <= o + slots[i].first_key_len <= bytes.len()
                        &&& bytes.subrange(o, o + slots[i].first_key_len) == entries[i].0@
                    }
                &&& forall|i: int, j: int|
                    0 <= i < j < slots.len() ==> (#[trigger] slots[i]).first_key_off < (
                    #[trigger] slots[j]).first_key_off
            }
        }),
{
    let first = Error::SstCorrupt("first_key_len");
    let second = Error::SstCorrupt("clave de índice");
    let base = index_file_offset as int;
    law_slot_rows(bytes, base, 0);
    law_index_readers_agree(bytes, 0, first, second);
    let parsed = parsed_index(bytes, index_file_offset);
    if parsed is Ok && slots_lie(slots, base, parsed->Ok_0) && are_index_rows(
        entries,
        index_rows(bytes, 0, second)->Ok_0,
    ) {
        let rows = parsed->Ok_0;
        assert forall|i: int|
            #![trigger slots[i]]
            #![trigger entries[i]]
            0 <= i < slots.len() implies {
            let o = slots[i].first_key_off - base;
            &&& slots[i].block_offset == entries[i].1.block_offset
            &&& slots[i].block_len == entries[i].1.block_len
            &&& slots[i].first_key_len == entries[i].1.first_key_len
            &&& 0 <= o <= o + slots[i].first_key_len <= bytes.len()
            &&& bytes.subrange(o, o + slots[i].first_key_len) == entries[i].0@
        } by {
            law_index_layout(bytes, first, i);
            assert(is_index_row(entries[i], rows[i]));
        }
        assert forall|i: int, j: int| 0 <= i < j < slots.len() implies (
        #[trigger] slots[i]).first_key_off < (#[trigger] slots[j]).first_key_off by {
            law_entry_offsets_grow(rows, i, j);
        }
    }
}

/// On an index whose keys increase, the search counts the entries whose key does
/// not exceed `key`: all of them come first.
pub proof fn law_bisect_splits(index: Seq<IndexRow>, key: Seq<u8>)
    requires
        forall|i: int, j: int|
            0 <= i < j < index.len() ==> lex_lt(#[trigger] index[i].key, #[trigger] index[j].key),
    ensures
        ({
            let p = bisect(index, key, 0, index.len() as int);
            &&& 0 <= p <= index.len()
            &&& forall|i: int| 0 <= i < p ==> lex_le(#[trigger] index[i].key, key)
            &&& forall|i: int| p <= i < index.len() ==> lex_lt(key, #[trigger] index[i].key)
        }),
{
    lemma_bisect(index, key, 0, index.len() as int);
}

proof fn lemma_bisect(index: Seq<IndexRow>, key: Seq<u8>, lo: int, hi: int)
    requires
        forall|i: int, j: int|
            0 <= i < j < index.len() ==> lex_lt(#[trigger] index[i].key, #[trigger] index[j].key),
        0 <= lo <= hi <= index.len(),
        forall|i: int| 0 <= i < lo ==> lex_le(#[trigger] index[i].key, key),
        forall|i: int| hi <= i < index.len() ==> lex_lt(key, #[trigger] index[i].key),
    ensures
        ({
            let p = bisect(index, key, lo, hi);
            &&& lo <= p <= hi
            &&& forall|i: int| 0 <= i < p ==> lex_le(#[trigger] index[i].key, key)
            &&& forall|i: int| p <= i < index.len() ==> lex_lt(key, #[trigger] index[i].key)
        }),
    decreases hi - lo,
{
    if lo < hi {
        let mid = lo + (hi - lo) / 2;
        lemma_lex_total(index[mid].key, key);
        if lex_le(index[mid].key, key) {
            assert forall|i: int| 0 <= i < mid + 1 implies lex_le(
                #[trigger] index[i].key,
                key,
            ) by {
                if i < mid && index[mid].key != key {
                    lemma_lex_transitive(index[i].key, index[mid].key, key);
                }
            }
            lemma_bisect(index, key, mid + 1, hi);
        } else {
            assert forall|i: int| mid <= i < index.len() implies lex_lt(
                key,
                #[trigger] index[i].key,
            ) by {
                if i > mid {
                    lemma_lex_transitive(key, index[mid].key, index[i].key);
                }
            }
            lemma_bisect(index, key, lo, mid);
        }
    }
}

} // verus!
