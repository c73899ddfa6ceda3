//! Writing a table: rows in the order of their keys become blocks, an index, a
//! Bloom filter and a footer.

use crate::bytes::{capped, joined, lemma_joined_push, lemma_le_bytes_len, push_all};
use crate::crc::{crc32, crc_of};
use crate::error::Error;
use crate::index::bloom::{new_filter, Bloom, Filter};
use crate::laws::table_files::law_table_is_written;
use crate::memtable::{item_rows, MemTable, MemValue};
use crate::sstable::{
    are_index_rows, block_header_bytes, encode_record, footer_bytes, footer_head, index_bytes,
    index_pieces, is_index_row, kind_of, lemma_row_bytes_len, lemma_rows_bytes_len,
    lemma_rows_bytes_push, row_bytes, row_fits, row_pieces, rows_bytes, BlockHeader,
    IndexEntry, IndexRow, SstFooter, BLOCK_HEADER_SIZE, BLOCK_MAGIC, DEFAULT_BLOCK_SIZE, KIND_PUT,
    KIND_TOMBSTONE, SST_MAGIC, SST_VERSION,
};
use crate::types::{
    law_listing_exists, law_listing_unique, listing, stored_value, Contents, Key, Row, SeqNum,
};
use vstd::prelude::*;
use vstd::slice::slice_to_vec;

verus! {

// ---------------------------------------------------------------------------
// What a table looks like
// ---------------------------------------------------------------------------

/// The bytes of a block with the given payload, record count and CRC.
pub open spec fn encoded_block(payload: Seq<u8>, record_count: u32, crc: u32) -> Seq<u8> {
    block_header_bytes(BLOCK_MAGIC@, crc, payload.len() as u32, record_count) + payload
}

/// The bytes of a block that holds `rows`.
pub open spec fn block_bytes(rows: Seq<Row>) -> Seq<u8> {
    encoded_block(rows_bytes(rows), rows.len() as u32, crc32(rows_bytes(rows)))
}

/// The bytes of each block.
pub open spec fn block_pieces(blocks: Seq<Seq<Row>>) -> Seq<Seq<u8>> {
    Seq::new(blocks.len(), |i: int| block_bytes(blocks[i]))
}

/// The data part of a table.
pub open spec fn data_bytes(blocks: Seq<Seq<Row>>) -> Seq<u8> {
    joined(block_pieces(blocks))
}

/// Where block `i` begins.
pub open spec fn block_offset(blocks: Seq<Seq<Row>>, i: int) -> int {
    data_bytes(blocks.take(i)).len() as int
}

/// The index of a table: for each block its first key and where it lies.
pub open spec fn index_of(blocks: Seq<Seq<Row>>) -> Seq<IndexRow> {
    Seq::new(
        blocks.len(),
        |i: int|
            IndexRow {
                key: blocks[i][0].0,
                block_offset: block_offset(blocks, i) as u64,
                block_len: block_bytes(blocks[i]).len() as u32,
            },
    )
}

/// All rows of the blocks, in order.
pub open spec fn rows_of(blocks: Seq<Seq<Row>>) -> Seq<Row>
    decreases blocks.len(),
{
    if blocks.len() == 0 {
        seq![]
    } else {
        rows_of(blocks.drop_last()) + blocks.last()
    }
}

/// The keys of `rows`.
pub open spec fn keys_of(rows: Seq<Row>) -> Seq<Seq<u8>> {
    Seq::new(rows.len(), |i: int| rows[i].0)
}

/// The smallest sequence number, 0 if there are no rows.
pub open spec fn lowest_seq(rows: Seq<Row>) -> u64
    decreases rows.len(),
{
    if rows.len() == 0 {
        0
    } else {
        let rest = lowest_seq(rows.drop_last());
        if rows.len() > 1 && rest < rows.last().1.0 {
            rest
        } else {
            rows.last().1.0
        }
    }
}

/// The largest sequence number, 0 if there are no rows.
pub open spec fn highest_seq(rows: Seq<Row>) -> u64
    decreases rows.len(),
{
    if rows.len() == 0 {
        0
    } else {
        let rest = highest_seq(rows.drop_last());
        if rest > rows.last().1.0 {
            rest
        } else {
            rows.last().1.0
        }
    }
}

/// The numbers of the footer of a table.
pub open spec fn table_numbers(blocks: Seq<Seq<Row>>, filter: Filter) -> Seq<u64> {
    let data = data_bytes(blocks).len();
    let index = index_bytes(index_of(blocks)).len();
    seq![
        data as u64,
        index as u64,
        (data + index) as u64,
        filter.to_bytes().len() as u64,
        rows_of(blocks).len() as u64,
        blocks.len() as u64,
        lowest_seq(rows_of(blocks)),
        highest_seq(rows_of(blocks)),
    ]
}

/// The part of a table's footer that the checksum covers.
pub open spec fn table_head(blocks: Seq<Seq<Row>>, filter: Filter) -> Seq<u8> {
    footer_head(SST_MAGIC@, SST_VERSION, 0, table_numbers(blocks, filter))
}

/// The bytes of a table: blocks, index, Bloom filter, footer.
pub open spec fn table_bytes(blocks: Seq<Seq<Row>>, filter: Filter) -> Seq<u8> {
    data_bytes(blocks) + index_bytes(index_of(blocks)) + filter.to_bytes() + footer_bytes(
        table_head(blocks, filter),
        crc32(table_head(blocks, filter)),
    )
}

// ---------------------------------------------------------------------------
// A table under construction
// ---------------------------------------------------------------------------

/// Why `rows` cannot become a block: the payload, or the whole block, is longer
/// than its length field can say.
pub open spec fn block_fault(rows: Seq<Row>) -> Option<Error> {
    let len = rows_bytes(rows).len();
    if len > u32::MAX {
        Some(Error::SstRecordTooLarge { size: len as usize })
    } else if BLOCK_HEADER_SIZE + len > u32::MAX {
        Some(Error::SstRecordTooLarge { size: capped(BLOCK_HEADER_SIZE + len) as usize })
    } else {
        None
    }
}

/// Why `row` cannot become a record: its key or its value is longer than its
/// length field can say.
pub open spec fn row_fault(row: Row) -> Option<Error> {
    if row.0.len() > u32::MAX {
        Some(Error::SstRecordTooLarge { size: row.0.len() as usize })
    } else if stored_value(row.1.1).len() > u32::MAX {
        Some(Error::SstRecordTooLarge { size: stored_value(row.1.1).len() as usize })
    } else {
        None
    }
}

/// A table under construction: the target size of a block, the filter before the
/// first key, the finished blocks, and the rows of the block being filled.
pub struct Draft {
    pub block_size: usize,
    pub base: Filter,
    pub blocks: Seq<Seq<Row>>,
    pub pending: Seq<Row>,
}

/// Blocks that a table can hold.
pub open spec fn blocks_fit(blocks: Seq<Seq<Row>>) -> bool {
    forall|i: int| 0 <= i < blocks.len() ==> #[trigger] block_fits(blocks[i])
}

/// Rows that a block can hold.
pub open spec fn block_fits(rows: Seq<Row>) -> bool {
    &&& rows.len() > 0
    &&& rows_fit(rows)
    &&& block_fault(rows) is None
}

/// Every row can become a record.
pub open spec fn rows_fit(rows: Seq<Row>) -> bool {
    forall|i: int| 0 <= i < rows.len() ==> row_fits(#[trigger] rows[i])
}

impl Draft {
    /// All rows that were added.
    pub open spec fn rows(self) -> Seq<Row> {
        rows_of(self.blocks) + self.pending
    }

    /// The filter with the keys of all rows.
    pub open spec fn filter(self) -> Filter {
        self.base.insert_all(keys_of(self.rows()))
    }

    /// What holds of every draft.
    pub open spec fn valid(self) -> bool {
        &&& self.base.valid()
        &&& self.block_size > 0
        &&& blocks_fit(self.blocks)
        &&& rows_fit(self.pending)
    }

    /// The draft with the rows of the block being filled as a finished block.
    pub open spec fn sealed(self) -> Draft {
        Draft { blocks: self.blocks.push(self.pending), pending: seq![], ..self }
    }

    /// `row` does not fit the block being filled.
    pub open spec fn is_full_for(self, row: Row) -> bool {
        &&& self.pending.len() > 0
        &&& capped((rows_bytes(self.pending).len() + row_bytes(row).len()) as int)
            > self.block_size
    }

    /// The draft after `row` was added, and how that went.
    pub open spec fn added(self, row: Row) -> (Draft, Result<(), Error>) {
        let fault = block_fault(self.pending);
        if self.is_full_for(row) && fault is Some {
            (self, Err(fault->Some_0))
        } else {
            let room = if self.is_full_for(row) {
                self.sealed()
            } else {
                self
            };
            match row_fault(row) {
                Some(e) => (room, Err(e)),
                None => (Draft { pending: room.pending.push(row), ..room }, Ok(())),
            }
        }
    }

    /// The draft after `rows` were added, up to the first that fails.
    pub open spec fn added_all(self, rows: Seq<Row>) -> (Draft, Result<(), Error>)
        decreases rows.len(),
    {
        if rows.len() == 0 {
            (self, Ok(()))
        } else {
            let before = self.added_all(rows.drop_last());
            match before.1 {
                Ok(_) => before.0.added(rows.last()),
                Err(_) => before,
            }
        }
    }

    /// The draft with no block left to fill.
    pub open spec fn completed(self) -> Result<Draft, Error> {
        if self.pending.len() == 0 {
            Ok(self)
        } else {
            match block_fault(self.pending) {
                Some(e) => Err(e),
                None => Ok(self.sealed()),
            }
        }
    }

    /// The bytes of the table, once there is no block left to fill.
    pub open spec fn to_bytes(self) -> Seq<u8> {
        table_bytes(self.blocks, self.filter())
    }
}

/// The draft to which no row was added.
pub open spec fn new_draft(expected_keys: nat, block_size: usize, bits_per_key: u8) -> Result<
    Draft,
    Error,
> {
    if block_size == 0 {
        Err(Error::SstCorrupt("block_size no puede ser 0"))
    } else {
        match new_filter(
            if expected_keys == 0 {
                1
            } else {
                expected_keys
            },
            bits_per_key,
        ) {
            Ok(base) => Ok(Draft { block_size, base, blocks: seq![], pending: seq![] }),
            Err(e) => Err(e),
        }
    }
}

/// The finished draft of a table that holds `rows`.
pub open spec fn draft_of(
    rows: Seq<Row>,
    expected_keys: nat,
    block_size: usize,
    bits_per_key: u8,
) -> Result<Draft, Error> {
    match new_draft(expected_keys, block_size, bits_per_key) {
        Err(e) => Err(e),
        Ok(start) => match start.added_all(rows).1 {
            Err(e) => Err(e),
            Ok(_) => start.added_all(rows).0.completed(),
        },
    }
}

// ---------------------------------------------------------------------------
// The writer
// ---------------------------------------------------------------------------

/// Options of a flush.
#[derive(Clone, Copy, Debug)]
pub struct SstWriteOptions {
    /// The target size of a block's payload, in bytes.
    pub block_size: usize,
    /// Density of the Bloom filter, 1 to 16.
    pub bits_per_key: u8,
}

impl Default for SstWriteOptions {
    /// Blocks of 4 KiB and 10 bits per key.
    fn default() -> (r: Self)
        ensures
            r.block_size == DEFAULT_BLOCK_SIZE,
            r.bits_per_key == 10,
    {
        SstWriteOptions { block_size: DEFAULT_BLOCK_SIZE, bits_per_key: 10 }
    }
}

/// Summary of a finished table.
#[derive(Clone, Copy, Debug, Eq, PartialEq)]
pub struct SstMeta {
    /// Records, deletes included.
    pub entry_count: u64,
    /// Data blocks.
    pub block_count: u64,
    /// Bytes of the table, footer included.
    pub file_size: u64,
}

/// A finished table: the bytes to store, and their summary.
pub struct SstImage {
    /// The bytes of the file.
    pub bytes: Vec<u8>,
    /// Their summary.
    pub meta: SstMeta,
}

impl SstImage {
    /// The image is the table that `draft` describes.
    pub open spec fn is_table(self, draft: Draft) -> bool {
        &&& draft.valid()
        &&& draft.pending.len() == 0
        &&& self.bytes@ == draft.to_bytes()
        &&& self.meta.entry_count == draft.rows().len()
        &&& self.meta.block_count == draft.blocks.len()
        &&& self.meta.file_size == self.bytes@.len()
    }
}

/// A table under construction.
pub struct SstWriter {
    out: Vec<u8>,
    block_size: usize,
    payload: Vec<u8>,
    records_in_block: u32,
    first_key: Option<Vec<u8>>,
    index: Vec<(Vec<u8>, IndexEntry)>,
    bloom: Bloom,
    entry_count: u64,
    min_seq: Option<u64>,
    max_seq: Option<u64>,
    draft: Ghost<Draft>,
}

impl View for SstWriter {
    type V = Draft;

    closed spec fn view(&self) -> Draft {
        self.draft@
    }
}

/// `n`, or `limit` if `n` is larger.
spec fn at_most(n: nat, limit: nat) -> nat {
    if n > limit {
        limit
    } else {
        n
    }
}

/// The header and payload of a block whose payload has CRC-32 `crc`.
pub fn encode_block(payload: &[u8], record_count: u32, crc: u32) -> (r: Result<Vec<u8>, Error>)
    ensures
        match r {
            Ok(block) => {
                &&& BLOCK_HEADER_SIZE + payload@.len() <= u32::MAX
                &&& block@ == encoded_block(payload@, record_count, crc)
                &&& block@.len() == BLOCK_HEADER_SIZE + payload@.len()
            },
            Err(e) => {
                &&& BLOCK_HEADER_SIZE + payload@.len() > u32::MAX
                &&& payload@.len() > u32::MAX ==> e == Error::SstRecordTooLarge {
                    size: payload@.len() as usize,
                }
                &&& payload@.len() <= u32::MAX ==> e == Error::SstRecordTooLarge {
                    size: capped(BLOCK_HEADER_SIZE + payload@.len()) as usize,
                }
            },
        },
{
    if payload.len() > 0xFFFF_FFFF {
        return Err(Error::SstRecordTooLarge { size: payload.len() });
    }
    let block_len: usize = match BLOCK_HEADER_SIZE.checked_add(payload.len()) {
        Some(n) => n,
        None => {
            return Err(Error::SstRecordTooLarge { size: usize::MAX });
        },
    };
    if block_len > 0xFFFF_FFFF {
        return Err(Error::SstRecordTooLarge { size: block_len });
    }
    let header = BlockHeader {
        magic: BLOCK_MAGIC,
        crc32: crc,
        payload_len: payload.len() as u32,
        record_count,
    };
    let header_bytes = header.encode()?;
    let mut block: Vec<u8> = Vec::new();
    push_all(&mut block, &header_bytes);
    push_all(&mut block, payload);
    proof {
        lemma_le_bytes_len(crc as nat, 4);
        lemma_le_bytes_len(payload@.len(), 4);
        lemma_le_bytes_len(record_count as nat, 4);
        assert(block@ =~= encoded_block(payload@, record_count, crc));
    }
    Ok(block)
}

impl SstWriter {
    /// The buffers hold what the draft says.
    #[verifier::opaque]
    pub closed spec fn wf(self) -> bool {
        let d = self@;
        &&& d.valid()
        &&& self.out@ == data_bytes(d.blocks)
        &&& self.block_size == d.block_size
        &&& self.payload@ == rows_bytes(d.pending)
        &&& self.records_in_block == at_most(d.pending.len(), u32::MAX as nat)
        &&& d.pending.len() > 0 ==> (self.first_key matches Some(key) && key@ == d.pending[0].0)
        &&& are_index_rows(self.index@, index_of(d.blocks))
        &&& self.bloom.wf()
        &&& self.bloom@ == d.filter()
        &&& self.entry_count == at_most(d.rows().len(), u64::MAX as nat)
        &&& match self.min_seq {
            Some(seq) => d.rows().len() > 0 && seq == lowest_seq(d.rows()),
            None => d.rows().len() == 0,
        }
        &&& match self.max_seq {
            Some(seq) => d.rows().len() > 0 && seq == highest_seq(d.rows()),
            None => d.rows().len() == 0,
        }
    }

    /// What being well-formed means for the draft.
    pub proof fn lemma_wf(self)
        requires
            self.wf(),
        ensures
            self@.valid(),
    {
        reveal(SstWriter::wf);
    }

    /// The payload being filled, and its target size.
    proof fn lemma_fill(self)
        requires
            self.wf(),
        ensures
            self.payload@ == rows_bytes(self@.pending),
            (self.payload@.len() > 0) == (self@.pending.len() > 0),
            self.block_size == self@.block_size,
    {
        reveal(SstWriter::wf);
        lemma_rows_bytes_len(self@.pending);
        if self@.pending.len() == 0 {
            assert(row_pieces(self@.pending) =~= seq![]);
        }
    }

    /// A writer with default options, with a Bloom filter for `expected_keys` keys.
    pub fn create(expected_keys: usize) -> (r: Result<Self, Error>)
        ensures
            match r {
                Ok(writer) => writer.wf() && new_draft(
                    expected_keys as nat,
                    DEFAULT_BLOCK_SIZE,
                    10,
                ) == Ok::<Draft, Error>(writer@),
                Err(e) => new_draft(expected_keys as nat, DEFAULT_BLOCK_SIZE, 10) == Err::<
                    Draft,
                    Error,
                >(e),
            },
    {
        Self::create_with(expected_keys, SstWriteOptions::default())
    }

    /// A writer with the given options.
    pub fn create_with(expected_keys: usize, opts: SstWriteOptions) -> (r: Result<Self, Error>)
        ensures
            match r {
                Ok(writer) => writer.wf() && new_draft(
                    expected_keys as nat,
                    opts.block_size,
                    opts.bits_per_key,
                ) == Ok::<Draft, Error>(writer@),
                Err(e) => new_draft(expected_keys as nat, opts.block_size, opts.bits_per_key)
                    == Err::<Draft, Error>(e),
            },
    {
        if opts.block_size == 0 {
            return Err(Error::SstCorrupt("block_size no puede ser 0"));
        }
        let keys: usize = if expected_keys == 0 {
            1
        } else {
            expected_keys
        };
        let bloom = Bloom::new(keys, opts.bits_per_key)?;
        let ghost draft = Draft {
            block_size: opts.block_size,
            base: bloom@,
            blocks: seq![],
            pending: seq![],
        };
        proof {
            reveal(SstWriter::wf);
            bloom.lemma_wf();
            assert(block_pieces(draft.blocks) =~= seq![]);
            assert(row_pieces(draft.pending) =~= seq![]);
            assert(draft.rows() =~= seq![]);
            assert(keys_of(draft.rows()) =~= seq![]);
        }
        Ok(
            SstWriter {
                out: Vec::new(),
                block_size: opts.block_size,
                payload: Vec::new(),
                records_in_block: 0,
                first_key: None,
                index: Vec::new(),
                bloom,
                entry_count: 0,
                min_seq: None,
                max_seq: None,
                draft: Ghost(draft),
            },
        )
    }

    /// Adds a record; the block being filled is finished first if the record does
    /// not fit it.
    #[verifier::rlimit(40)]
    pub fn add(&mut self, key: &Key, seq: SeqNum, value: MemValue<'_>) -> (r: Result<(), Error>)
        requires
            old(self).wf(),
        ensures
            final(self).wf(),
            old(self)@.added((key@, (seq@, value@))) == (final(self)@, r),
    {
        let ghost row: Row = (key@, (seq@, value@));
        let seq_raw: u64 = seq.get();
        let empty: [u8; 0] = [];
        let (kind, val_bytes): (u8, &[u8]) = match value {
            MemValue::Put(v) => (KIND_PUT, v.as_bytes()),
            MemValue::Tombstone => (KIND_TOMBSTONE, &empty),
        };
        assert(val_bytes@ =~= stored_value(value@));
        let key_bytes = key.as_bytes();
        let rec_len: usize = 17usize.saturating_add(key_bytes.len()).saturating_add(
            val_bytes.len(),
        );
        proof {
            lemma_row_bytes_len(row);
            self.lemma_fill();
        }
        if self.payload.len() > 0 && self.payload.len().saturating_add(rec_len) > self.block_size {
            assert(self@.is_full_for(row));
            self.flush_block()?;
        } else {
            assert(!self@.is_full_for(row));
        }
        self.push_record(key_bytes, seq_raw, kind, val_bytes, Ghost(row))
    }

    /// Adds a record to the block being filled.
    #[verifier::rlimit(40)]
    fn push_record(
        &mut self,
        key: &[u8],
        seq: u64,
        kind: u8,
        value: &[u8],
        row: Ghost<Row>,
    ) -> (r: Result<(), Error>)
        requires
            old(self).wf(),
            row@.0 == key@,
            row@.1.0 == seq,
            kind_of(row@.1.1) == kind,
            stored_value(row@.1.1) == value@,
        ensures
            final(self).wf(),
            match r {
                Ok(u) => u == () && row_fault(row@) is None && final(self)@ == (Draft {
                    pending: old(self)@.pending.push(row@),
                    ..old(self)@
                }),
                Err(e) => row_fault(row@) == Some(e) && final(self)@ == old(self)@,
            },
    {
        let ghost room = self@;
        proof {
            reveal(SstWriter::wf);
            lemma_rows_bytes_len(room.pending);
            lemma_rows_bytes_push(room.pending, row@);
        }
        if self.payload.len() == 0 {
            self.first_key = Some(slice_to_vec(key));
        }
        encode_record(&mut self.payload, key, seq, kind, value)?;
        self.records_in_block = self.records_in_block.saturating_add(1);
        self.bloom.insert(key);
        self.entry_count = self.entry_count.saturating_add(1);
        self.min_seq = match self.min_seq {
            Some(m) => Some(
                if m < seq {
                    m
                } else {
                    seq
                },
            ),
            None => Some(seq),
        };
        self.max_seq = match self.max_seq {
            Some(m) => Some(
                if m > seq {
                    m
                } else {
                    seq
                },
            ),
            None => Some(seq),
        };
        proof {
            lemma_draft_push(room, row@);
            self.draft@ = Draft { pending: room.pending.push(row@), ..room };
        }
        Ok(())
    }

    /// Finishes the block being filled.
    #[verifier::rlimit(40)]
    fn flush_block(&mut self) -> (r: Result<(), Error>)
        requires
            old(self).wf(),
            old(self)@.pending.len() > 0,
        ensures
            final(self).wf(),
            match r {
                Ok(_) => block_fault(old(self)@.pending) is None && final(self)@ == old(
                    self,
                )@.sealed(),
                Err(e) => block_fault(old(self)@.pending) == Some(e) && final(self)@ == old(self)@,
            },
    {
        let ghost before = self@;
        proof {
            reveal(SstWriter::wf);
        }
        let crc: u32 = crc_of(self.payload.as_slice());
        let block = encode_block(self.payload.as_slice(), self.records_in_block, crc)?;
        proof {
            lemma_rows_bytes_len(before.pending);
        }
        let first_key = match self.first_key.take() {
            Some(key) => key,
            None => {
                return Err(Error::SstCorrupt("bloque sin first-key"));
            },
        };
        let entry = IndexEntry {
            block_offset: self.out.len() as u64,
            block_len: block.len() as u32,
            first_key_len: first_key.len() as u32,
        };
        self.index.push((first_key, entry));
        push_all(&mut self.out, block.as_slice());
        self.payload.clear();
        self.records_in_block = 0;
        proof {
            let next = before.sealed();
            assert(row_fits(before.pending[0]));
            assert(block@ == block_bytes(before.pending));
            lemma_joined_push(block_pieces(before.blocks), block@);
            assert(block_pieces(next.blocks) =~= block_pieces(before.blocks).push(block@));
            assert(row_pieces(next.pending) =~= seq![]);
            assert(next.blocks.drop_last() =~= before.blocks);
            assert(next.rows() =~= before.rows());
            lemma_index_of_push(before.blocks, before.pending);
            assert(block_fits(before.pending));
            assert(next.blocks.last() == before.pending);
            self.draft@ = next;
        }
        Ok(())
    }

    /// Finishes the last block and adds index, Bloom filter and footer.
    #[verifier::rlimit(40)]
    pub fn finish(self) -> (r: Result<SstImage, Error>)
        requires
            self.wf(),
        ensures
            match r {
                Ok(image) => self@.completed() is Ok && image.is_table(self@.completed()->Ok_0),
                Err(e) => self@.completed() == Err::<Draft, Error>(e),
            },
    {
        let mut writer = self;
        proof {
            writer.lemma_fill();
        }
        if writer.payload.len() > 0 {
            writer.flush_block()?;
        }
        let ghost d = writer@;
        proof {
            reveal(SstWriter::wf);
        }
        let index_buf = encode_index(&writer.index, Ghost(index_of(d.blocks)));
        let index_offset: u64 = writer.out.len() as u64;
        let index_len: u64 = index_buf.len() as u64;
        push_all(&mut writer.out, index_buf.as_slice());
        let bloom_offset: u64 = writer.out.len() as u64;
        let bloom_bytes = writer.bloom.to_bytes()?;
        let bloom_len: u64 = bloom_bytes.len() as u64;
        push_all(&mut writer.out, bloom_bytes.as_slice());
        proof {
            lemma_rows_of_len(d.blocks);
            assert(d.rows() =~= rows_of(d.blocks));
        }
        let footer = SstFooter {
            magic: SST_MAGIC,
            version: SST_VERSION,
            flags: 0,
            index_offset,
            index_len,
            bloom_offset,
            bloom_len,
            entry_count: writer.entry_count,
            block_count: writer.index.len() as u64,
            min_seq: match writer.min_seq {
                Some(seq) => seq,
                None => 0,
            },
            max_seq: match writer.max_seq {
                Some(seq) => seq,
                None => 0,
            },
            checksum: 0,
            _pad: [0; 52],
        };
        assert(footer.numbers() =~= table_numbers(d.blocks, d.filter()));
        assert(footer.head_bytes() == table_head(d.blocks, d.filter()));
        let footer_buf = footer.encode()?;
        push_all(&mut writer.out, &footer_buf);
        let meta = SstMeta {
            entry_count: writer.entry_count,
            block_count: footer.block_count,
            file_size: writer.out.len() as u64,
        };
        Ok(SstImage { bytes: writer.out, meta })
    }
}

/// The bytes of an index.
fn encode_index(index: &Vec<(Vec<u8>, IndexEntry)>, rows: Ghost<Seq<IndexRow>>) -> (out: Vec<u8>)
    requires
        are_index_rows(index@, rows@),
    ensures
        out@ == index_bytes(rows@),
{
    let mut out: Vec<u8> = Vec::new();
    let ghost pieces = index_pieces(rows@);
    let mut i: usize = 0;
    assert(pieces.take(0) =~= seq![]);
    while i < index.len()
        invariant
            i <= index@.len(),
            are_index_rows(index@, rows@),
            pieces == index_pieces(rows@),
            out@ == joined(pieces.take(i as int)),
        decreases index@.len() - i,
    {
        let pair = &index[i];
        assert(is_index_row(index@[i as int], rows@[i as int]));
        if let Ok(entry_bytes) = pair.1.encode() {
            push_all(&mut out, &entry_bytes);
        }
        push_all(&mut out, pair.0.as_slice());
        proof {
            assert(pieces.take(i + 1) =~= pieces.take(i as int).push(pieces[i as int]));
            lemma_joined_push(pieces.take(i as int), pieces[i as int]);
            assert(out@ =~= joined(pieces.take(i + 1)));
        }
        i = i + 1;
    }
    assert(pieces.take(pieces.len() as int) =~= pieces);
    out
}

/// What one row more changes.
proof fn lemma_draft_push(d: Draft, row: Row)
    ensures
        ({
            let next = Draft { pending: d.pending.push(row), ..d };
            &&& next.rows() == d.rows().push(row)
            &&& next.filter() == d.filter().insert(row.0)
            &&& lowest_seq(next.rows()) == if d.rows().len() > 0 && lowest_seq(d.rows())
                < row.1.0 {
                lowest_seq(d.rows())
            } else {
                row.1.0
            }
            &&& highest_seq(next.rows()) == if highest_seq(d.rows()) > row.1.0 {
                highest_seq(d.rows())
            } else {
                row.1.0
            }
        }),
{
    let next = Draft { pending: d.pending.push(row), ..d };
    assert(next.rows() =~= d.rows().push(row));
    assert(next.rows().drop_last() =~= d.rows());
    assert(keys_of(next.rows()).drop_last() =~= keys_of(d.rows()));
}

/// One block more is one index entry more.
proof fn lemma_index_of_push(blocks: Seq<Seq<Row>>, rows: Seq<Row>)
    ensures
        index_of(blocks.push(rows)) == index_of(blocks).push(
            IndexRow {
                key: rows[0].0,
                block_offset: data_bytes(blocks).len() as u64,
                block_len: block_bytes(rows).len() as u32,
            },
        ),
{
    let more = blocks.push(rows);
    assert forall|i: int| 0 <= i <= blocks.len() implies #[trigger] more.take(i) == blocks.take(
        i,
    ) by {
        assert(more.take(i) =~= blocks.take(i));
    }
    assert(blocks.take(blocks.len() as int) =~= blocks);
    assert(index_of(more) =~= index_of(blocks).push(
        IndexRow {
            key: rows[0].0,
            block_offset: data_bytes(blocks).len() as u64,
            block_len: block_bytes(rows).len() as u32,
        },
    ));
}

/// Every row takes some bytes of the data part.
pub proof fn lemma_rows_of_len(blocks: Seq<Seq<Row>>)
    ensures
        rows_of(blocks).len() <= data_bytes(blocks).len(),
        blocks.len() <= data_bytes(blocks).len(),
    decreases blocks.len(),
{
    if blocks.len() > 0 {
        lemma_rows_of_len(blocks.drop_last());
        assert(block_pieces(blocks).drop_last() =~= block_pieces(blocks.drop_last()));
        let rows = blocks.last();
        lemma_rows_bytes_len(rows);
        lemma_le_bytes_len(crc32(rows_bytes(rows)) as nat, 4);
        assert(block_bytes(rows).len() >= 4 + rows_bytes(rows).len());
    }
}

/// Writes a whole table in memory, with default options.
pub fn flush_memtable(table: &MemTable) -> (r: Result<SstImage, Error>)
    requires
        table.wf(),
    ensures
        match r {
            Ok(image) => flushed(table@, DEFAULT_BLOCK_SIZE, 10) is Ok && image.is_table(
                flushed(table@, DEFAULT_BLOCK_SIZE, 10)->Ok_0,
            ),
            Err(e) => flushed(table@, DEFAULT_BLOCK_SIZE, 10) == Err::<Draft, Error>(e),
        },
        table@.dom().len() <= 53687091 && entries_small(table@) ==> r is Ok,
{
    flush_memtable_with(table, SstWriteOptions::default())
}

/// Writes a whole table in memory, in the order of the keys, tombstones included.
pub fn flush_memtable_with(table: &MemTable, opts: SstWriteOptions) -> (r: Result<SstImage, Error>)
    requires
        table.wf(),
    ensures
        match r {
            Ok(image) => flushed(table@, opts.block_size, opts.bits_per_key) is Ok
                && image.is_table(flushed(table@, opts.block_size, opts.bits_per_key)->Ok_0),
            Err(e) => flushed(table@, opts.block_size, opts.bits_per_key) == Err::<Draft, Error>(
                e,
            ),
        },
        0 < opts.block_size && 16 + opts.block_size <= u32::MAX && 1 <= opts.bits_per_key <= 16
            && table@.dom().len() * (opts.bits_per_key as nat) <= 64 * 8388608 && entries_small(
            table@,
        ) ==> r is Ok,
{
    proof {
        table.lemma_wf();
        lemma_small_entries_are_written(table@, opts.block_size, opts.bits_per_key);
    }
    let mut writer = SstWriter::create_with(table.len(), opts)?;
    let ghost start = writer@;
    let items = table.iter();
    let ghost rows = item_rows(items@);
    proof {
        law_listing_unique(rows, table@);
        assert(rows.take(0) =~= seq![]);
    }
    let mut i: usize = 0;
    while i < items.len()
        invariant
            i <= items@.len(),
            writer.wf(),
            rows == item_rows(items@),
            rows == listing(table@),
            new_draft(table@.dom().len(), opts.block_size, opts.bits_per_key) == Ok::<
                Draft,
                Error,
            >(start),
            start.added_all(rows.take(i as int)) == (writer@, Ok::<(), Error>(())),
            0 < opts.block_size && 16 + opts.block_size <= u32::MAX && 1 <= opts.bits_per_key <= 16
                && table@.dom().len() * (opts.bits_per_key as nat) <= 64 * 8388608
                && entries_small(table@) ==> flushed(table@, opts.block_size, opts.bits_per_key)
                is Ok,
        decreases items@.len() - i,
    {
        let item = &items[i];
        proof {
            assert(rows.take(i + 1).drop_last() =~= rows.take(i as int));
            assert(rows.take(i + 1).last() == item@);
        }
        match writer.add(item.key(), item.seq(), item.mem_value()) {
            Ok(_) => {},
            Err(e) => {
                proof {
                    lemma_added_all_stops(start, rows, i + 1);
                }
                return Err(e);
            },
        }
        i = i + 1;
    }
    assert(rows.take(rows.len() as int) =~= rows);
    writer.finish()
}

/// Key and value of every entry, with the headers of a record and a block, fit a length
/// field.
pub open spec fn entries_small(m: Contents) -> bool {
    forall|key: Seq<u8>| #[trigger]
        m.contains_key(key) ==> 33 + key.len() + stored_value(m[key].1).len() <= u32::MAX
}

/// Small entries can be written whenever there is a filter for them.
proof fn lemma_small_entries_are_written(m: Contents, block_size: usize, bits_per_key: u8)
    requires
        m.dom().finite(),
    ensures
        0 < block_size && 16 + block_size <= u32::MAX && 1 <= bits_per_key <= 16 && m.dom().len()
            * (bits_per_key as nat) <= 64 * 8388608 && entries_small(m) ==> flushed(
            m,
            block_size,
            bits_per_key,
        ) is Ok,
{
    if 0 < block_size && 16 + block_size <= u32::MAX && 1 <= bits_per_key <= 16 && m.dom().len() * (
    bits_per_key as nat) <= 64 * 8388608 && entries_small(m) {
        let rows = listing(m);
        law_listing_exists(m);
        assert forall|i: int| 0 <= i < rows.len() implies 33 + (#[trigger] rows[i]).0.len()
            + stored_value(rows[i].1.1).len() <= u32::MAX by {
            assert(m.contains_key(rows[i].0));
        }
        law_table_is_written(rows, m.dom().len(), block_size, bits_per_key);
    }
}

/// The finished draft of a table that holds what `m` holds.
pub open spec fn flushed(m: Contents, block_size: usize, bits_per_key: u8) -> Result<Draft, Error> {
    draft_of(listing(m), m.dom().len(), block_size, bits_per_key)
}

/// Nothing is added after the first row that fails.
proof fn lemma_added_all_stops(d: Draft, rows: Seq<Row>, i: int)
    requires
        0 <= i <= rows.len(),
        d.added_all(rows.take(i)).1 is Err,
    ensures
        d.added_all(rows) == d.added_all(rows.take(i)),
    decreases rows.len(),
{
    if i == rows.len() {
        assert(rows.take(i) =~= rows);
    } else {
        assert(rows.drop_last().take(i) =~= rows.take(i));
        lemma_added_all_stops(d, rows.drop_last(), i);
    }
}

// ---------------------------------------------------------------------------
// Laws
// ---------------------------------------------------------------------------

/// Adding a row keeps a draft valid, and keeps every row added before, in order;
/// if it succeeds the new row is the last.
pub proof fn law_added_keeps_rows(d: Draft, row: Row)
    requires
        d.valid(),
    ensures
        d.added(row).0.valid(),
        d.added(row).0.base == d.base,
        d.added(row).0.block_size == d.block_size,
        d.added(row).1 is Ok ==> d.added(row).0.rows() == d.rows().push(row),
        d.added(row).1 is Err ==> d.added(row).0.rows() == d.rows(),
{
    let room = if d.is_full_for(row) && block_fault(d.pending) is None {
        d.sealed()
    } else {
        d
    };
    if d.is_full_for(row) {
        lemma_sealed(d);
    }
    if row_fault(row) is None {
        let next = Draft { pending: room.pending.push(row), ..room };
        assert(next.rows() =~= room.rows().push(row));
    }
}

/// Finishing a block keeps the rows.
proof fn lemma_sealed(d: Draft)
    requires
        d.valid(),
        d.pending.len() > 0,
    ensures
        d.sealed().rows() == d.rows(),
        block_fault(d.pending) is None ==> d.sealed().valid(),
{
    let next = d.sealed();
    assert(next.blocks.drop_last() =~= d.blocks);
    assert(next.rows() =~= d.rows());
    if block_fault(d.pending) is None {
        assert forall|i: int| 0 <= i < next.blocks.len() implies #[trigger] block_fits(
            next.blocks[i],
        ) by {
            if i < d.blocks.len() {
                assert(next.blocks[i] == d.blocks[i]);
            }
        }
    }
}

/// A table that was written without error holds the rows it was given, all of
/// them and in order.
pub proof fn law_draft_holds_rows(
    rows: Seq<Row>,
    expected_keys: nat,
    block_size: usize,
    bits_per_key: u8,
)
    requires
        draft_of(rows, expected_keys, block_size, bits_per_key) is Ok,
    ensures
        ({
            let d = draft_of(rows, expected_keys, block_size, bits_per_key)->Ok_0;
            &&& d.valid()
            &&& d.pending.len() == 0
            &&& d.rows() == rows
        }),
{
    let start = new_draft(expected_keys, block_size, bits_per_key)->Ok_0;
    assert(start.rows() =~= seq![]);
    lemma_added_all_rows(start, rows);
    let last = start.added_all(rows).0;
    assert(start.rows() + rows =~= rows);
    if last.pending.len() > 0 {
        lemma_sealed(last);
    }
}

/// A table that was written without error keeps the filter that it began with as the
/// one before the first key.
pub proof fn law_draft_keeps_filter(
    rows: Seq<Row>,
    expected_keys: nat,
    block_size: usize,
    bits_per_key: u8,
)
    requires
        draft_of(rows, expected_keys, block_size, bits_per_key) is Ok,
    ensures
        draft_of(rows, expected_keys, block_size, bits_per_key)->Ok_0.base == new_draft(
            expected_keys,
            block_size,
            bits_per_key,
        )->Ok_0.base,
{
    let start = new_draft(expected_keys, block_size, bits_per_key)->Ok_0;
    lemma_added_all_rows(start, rows);
}

proof fn lemma_added_all_rows(d: Draft, rows: Seq<Row>)
    requires
        d.valid(),
    ensures
        d.added_all(rows).0.valid(),
        d.added_all(rows).0.block_size == d.block_size,
        d.added_all(rows).0.base == d.base,
        d.added_all(rows).1 is Ok ==> d.added_all(rows).0.rows() == d.rows() + rows,
    decreases rows.len(),
{
    if rows.len() == 0 {
        assert(d.rows() + rows =~= d.rows());
    } else {
        lemma_added_all_rows(d, rows.drop_last());
        let before = d.added_all(rows.drop_last());
        if before.1 is Ok {
            law_added_keeps_rows(before.0, rows.last());
            assert((d.rows() + rows.drop_last()).push(rows.last()) =~= d.rows() + rows);
        }
    }
}

/// Writing succeeds whenever the options are in range, the filter is not too
/// large, and a block of the target size as well as each row alone fits the
/// length fields.
pub proof fn law_small_rows_are_written(
    rows: Seq<Row>,
    expected_keys: nat,
    block_size: usize,
    bits_per_key: u8,
)
    requires
        new_draft(expected_keys, block_size, bits_per_key) is Ok,
        BLOCK_HEADER_SIZE + block_size <= u32::MAX,
        forall|i: int|
            0 <= i < rows.len() ==> BLOCK_HEADER_SIZE + row_bytes(#[trigger] rows[i]).len()
                <= u32::MAX,
    ensures
        draft_of(rows, expected_keys, block_size, bits_per_key) is Ok,
{
    let start = new_draft(expected_keys, block_size, bits_per_key)->Ok_0;
    assert(row_pieces(start.pending) =~= seq![]);
    lemma_small_rows_from(start, rows);
}

proof fn lemma_small_rows_from(d: Draft, rows: Seq<Row>)
    requires
        BLOCK_HEADER_SIZE + d.block_size <= u32::MAX,
        block_fault(d.pending) is None,
        forall|i: int|
            0 <= i < rows.len() ==> BLOCK_HEADER_SIZE + row_bytes(#[trigger] rows[i]).len()
                <= u32::MAX,
    ensures
        d.added_all(rows).1 is Ok,
        d.added_all(rows).0.block_size == d.block_size,
        block_fault(d.added_all(rows).0.pending) is None,
    decreases rows.len(),
{
    if rows.len() > 0 {
        let front = rows.drop_last();
        assert forall|i: int| 0 <= i < front.len() implies BLOCK_HEADER_SIZE + row_bytes(
            #[trigger] front[i],
        ).len() <= u32::MAX by {
            assert(front[i] == rows[i]);
        }
        lemma_small_rows_from(d, front);
        let before = d.added_all(front).0;
        let row = rows[rows.len() - 1];
        lemma_row_bytes_len(row);
        lemma_rows_bytes_push(before.pending, row);
        lemma_rows_bytes_push(seq![], row);
        assert(row_pieces(seq![]) =~= seq![]);
        if before.pending.len() == 0 {
            assert(before.pending =~= seq![]);
        }
    }
}

/// A block holds more than one record only if its payload does not exceed the
/// target size.
pub open spec fn within_target(d: Draft) -> bool {
    &&& forall|i: int|
        0 <= i < d.blocks.len() ==> #[trigger] d.blocks[i].len() <= 1 || rows_bytes(
            d.blocks[i],
        ).len() <= d.block_size
    &&& d.pending.len() <= 1 || rows_bytes(d.pending).len() <= d.block_size
}

/// Blocks stay within the target size, except for a record that alone exceeds it.
pub proof fn law_blocks_within_target(d: Draft, row: Row)
    requires
        within_target(d),
        rows_bytes(d.added(row).0.pending).len() <= usize::MAX,
    ensures
        within_target(d.added(row).0),
{
    lemma_rows_bytes_push(d.pending, row);
    let next = d.added(row).0;
    assert forall|i: int| 0 <= i < next.blocks.len() implies #[trigger] next.blocks[i].len() <= 1
        || rows_bytes(next.blocks[i]).len() <= next.block_size by {
        if i < d.blocks.len() {
            assert(next.blocks[i] == d.blocks[i]);
        }
    }
}

} // verus!
