//! Table files: the layout of their bytes, what is read from any bytes, and how rows
//! become blocks.

use crate::bytes::{
    le_bytes, lemma_fixed_width, lemma_le_bytes_len, lemma_le_bytes_of_nat, lemma_lex_irreflexive,
    lemma_number_at, lex_lt, u16_at, u32_at, u64_at,
};
use crate::crc::crc32;
use crate::error::Error;
use crate::index::bloom::{new_filter, parse_filter, Filter};
use crate::laws::filter::{law_filter_exists_within_limit, law_filter_refusals};
use crate::sstable::laws::law_footer_says;
use crate::sstable::reader::{
    bisect, block_at, block_find, block_payload, cell_version, file_range, parsed_index, scan_from,
    slot_rows, table_in, table_with, Table,
};
use crate::sstable::writer::{
    block_bytes, block_fault, block_pieces, data_bytes, draft_of, encoded_block,
    flushed, highest_seq, index_of, keys_of, law_small_rows_are_written, lemma_rows_of_len,
    lowest_seq, new_draft, row_fault, rows_of, table_bytes, table_head, table_numbers, Draft,
    SstImage,
};
use crate::sstable::{
    are_index_rows, are_rows, cell_at, cell_row, check_block_header, check_footer,
    check_footer_of, footer_bytes, footer_head, footer_part, index_bytes, index_row_bytes,
    index_rows, is_index_row, law_block_header_roundtrip, law_footer_roundtrip,
    law_index_entry_roundtrip, lemma_row_bytes_len, lemma_rows_bytes_push, payload_rows,
    record_bytes, row_bytes, row_fits, rows_bytes, Cell, DecodedRecord, IndexEntry, IndexRow,
    SstFooter,
};
use crate::types::{listing, stored_value, Contents, Row, Version};
use vstd::prelude::*;

verus! {

// ---------------------------------------------------------------------------
// Records
// ---------------------------------------------------------------------------

/// Where the parts of a record lie: the two lengths, the number, the kind, key, value.
pub proof fn law_record_layout(key: Seq<u8>, seq: u64, kind: u8, value: Seq<u8>)
    requires
        key.len() <= u32::MAX,
        value.len() <= u32::MAX,
    ensures
        ({
            let r = record_bytes(key, seq, kind, value);
            let k = key.len() as int;
            &&& r.len() == 17 + k + value.len()
            &&& u32_at(r, 0) == k
            &&& u32_at(r, 4) == value.len()
            &&& u64_at(r, 8) == seq
            &&& r[16] == kind
            &&& r.subrange(17, 17 + k) == key
            &&& r.subrange(17 + k, r.len() as int) == value
        }),
{
    let r = record_bytes(key, seq, kind, value);
    let k = key.len() as int;
    lemma_le_bytes_len(key.len(), 4);
    lemma_le_bytes_len(value.len(), 4);
    lemma_le_bytes_len(seq as nat, 8);
    assert(r.subrange(0, 4) =~= le_bytes(key.len(), 4));
    assert(r.subrange(4, 8) =~= le_bytes(value.len(), 4));
    assert(r.subrange(8, 16) =~= le_bytes(seq as nat, 8));
    assert(r.subrange(17, 17 + k) =~= key);
    assert(r.subrange(17 + k, r.len() as int) =~= value);
    lemma_number_at(r, 0, key.len(), 4);
    lemma_number_at(r, 4, value.len(), 4);
    lemma_number_at(r, 8, seq as nat, 8);
}

/// A value is a record of kind 1, a delete one of kind 2 without a value; rows are
/// records one after the other.
pub proof fn law_rows_as_records(rows: Seq<Row>, key: Seq<u8>, seq: u64, value: Seq<u8>)
    ensures
        row_bytes((key, (seq, Some(value)))) == record_bytes(key, seq, 1, value),
        row_bytes((key, (seq, None))) == record_bytes(key, seq, 2, seq![]),
        rows_bytes(seq![]) == Seq::<u8>::empty(),
        rows_bytes(rows.push((key, (seq, Some(value))))) == rows_bytes(rows) + record_bytes(
            key,
            seq,
            1,
            value,
        ),
        rows_bytes(rows.push((key, (seq, None)))) == rows_bytes(rows) + record_bytes(
            key,
            seq,
            2,
            seq![],
        ),
{
    assert(crate::sstable::row_pieces(seq![]) =~= seq![]);
    lemma_rows_bytes_push(rows, (key, (seq, Some(value))));
    lemma_rows_bytes_push(rows, (key, (seq, None)));
}

/// Both lengths of a row fit four bytes.
pub proof fn law_row_fits(key: Seq<u8>, seq: u64, value: Seq<u8>)
    ensures
        row_fits((key, (seq, Some(value)))) <==> key.len() <= u32::MAX && value.len() <= u32::MAX,
        row_fits((key, (seq, None))) <==> key.len() <= u32::MAX,
{
}

/// What lies at an offset of any payload: a record, or what is wrong.
pub proof fn law_record_reading(payload: Seq<u8>, off: int)
    requires
        0 <= off <= payload.len() <= usize::MAX,
    ensures
        ({
            let r = cell_at(payload, off);
            let key_end = off + 17 + u32_at(payload, off);
            let end = key_end + u32_at(payload, off + 4);
            &&& payload.len() - off < 17 ==> r == Err::<Cell, Error>(
                Error::SstCorrupt("registro truncado"),
            )
            &&& payload.len() - off >= 17 && key_end <= usize::MAX && end <= usize::MAX && key_end
                > payload.len() ==> r == Err::<Cell, Error>(Error::SstCorrupt("clave truncada"))
            &&& payload.len() - off >= 17 && end <= usize::MAX && key_end <= payload.len() && end
                > payload.len() ==> r == Err::<Cell, Error>(Error::SstCorrupt("valor truncado"))
            &&& payload.len() - off >= 17 && key_end > usize::MAX ==> r == Err::<Cell, Error>(
                Error::SstCorrupt("clave de registro"),
            )
            &&& payload.len() - off >= 17 && key_end <= usize::MAX && end > usize::MAX ==> r
                == Err::<Cell, Error>(Error::SstCorrupt("valor de registro"))
            &&& payload.len() - off >= 17 && end <= payload.len() ==> r == Ok::<Cell, Error>(
                Cell {
                    key: payload.subrange(off + 17, key_end),
                    seq: u64_at(payload, off + 8),
                    kind: payload[off + 16],
                    value: payload.subrange(key_end, end),
                    next: end,
                },
            )
        }),
{
    reveal(cell_at);
}

/// Kind 1 is a value, kind 2 a delete, which has no value; other kinds are none.
pub proof fn law_record_kinds(cell: Cell)
    ensures
        cell.kind == 1 ==> cell_row(cell) == Ok::<Row, Error>(
            (cell.key, (cell.seq, Some(cell.value))),
        ),
        cell.kind == 2 && cell.value.len() == 0 ==> cell_row(cell) == Ok::<Row, Error>(
            (cell.key, (cell.seq, None)),
        ),
        cell.kind == 2 && cell.value.len() > 0 ==> cell_row(cell) == Err::<Row, Error>(
            Error::SstCorrupt("tombstone con valor"),
        ),
        cell.kind != 1 && cell.kind != 2 ==> cell_row(cell) == Err::<Row, Error>(
            Error::SstCorrupt("kind de registro"),
        ),
        cell.kind == 1 ==> cell_version(cell) == Ok::<Version, Error>(
            (cell.seq, Some(cell.value)),
        ),
        cell.kind == 2 ==> cell_version(cell) == Ok::<Version, Error>((cell.seq, None)),
        cell.kind != 1 && cell.kind != 2 ==> cell_version(cell) == Err::<Version, Error>(
            Error::SstCorrupt("kind de registro desconocido"),
        ),
{
}

/// A payload is read record by record: to its end, or to the first error.
pub proof fn law_payload_reading(payload: Seq<u8>, off: int)
    ensures
        off >= payload.len() ==> payload_rows(payload, off) == Ok::<Seq<Row>, Error>(seq![]),
        off < payload.len() ==> match cell_at(payload, off) {
            Err(e) => payload_rows(payload, off) == Err::<Seq<Row>, Error>(e),
            Ok(cell) => match cell_row(cell) {
                Err(e) => payload_rows(payload, off) == Err::<Seq<Row>, Error>(e),
                Ok(row) => match payload_rows(payload, cell.next) {
                    Err(e) => payload_rows(payload, off) == Err::<Seq<Row>, Error>(e),
                    Ok(rest) => payload_rows(payload, off) == Ok::<Seq<Row>, Error>(
                        seq![row] + rest,
                    ),
                },
            },
        },
{
    reveal(cell_at);
}

/// What reads as rows is the bytes of these rows: no other bytes read as the same.
pub proof fn law_payload_is_what_it_says(payload: Seq<u8>, rows: Seq<Row>)
    requires
        payload_rows(payload, 0) == Ok::<Seq<Row>, Error>(rows),
    ensures
        rows_bytes(rows) == payload,
{
    lemma_payload_from(payload, 0, rows);
    assert(payload.skip(0) =~= payload);
}

proof fn lemma_payload_from(payload: Seq<u8>, off: int, rows: Seq<Row>)
    requires
        0 <= off <= payload.len(),
        payload_rows(payload, off) == Ok::<Seq<Row>, Error>(rows),
    ensures
        rows_bytes(rows) == payload.skip(off),
    decreases payload.len() - off,
{
    reveal(cell_at);
    if off >= payload.len() {
        assert(crate::sstable::row_pieces(rows) =~= seq![]);
        assert(payload.skip(off) =~= seq![]);
    } else {
        let cell = cell_at(payload, off)->Ok_0;
        let row = cell_row(cell)->Ok_0;
        let rest = payload_rows(payload, cell.next)->Ok_0;
        lemma_payload_from(payload, cell.next, rest);
        lemma_rows_bytes_first(row, rest);
        lemma_record_bytes(payload, off, cell, row);
        assert(rows == seq![row] + rest);
        assert(payload.skip(off) =~= payload.subrange(off, cell.next) + payload.skip(cell.next));
    }
}

proof fn lemma_record_bytes(payload: Seq<u8>, off: int, cell: Cell, row: Row)
    requires
        0 <= off < payload.len(),
        cell_at(payload, off) == Ok::<Cell, Error>(cell),
        cell_row(cell) == Ok::<Row, Error>(row),
    ensures
        off < cell.next <= payload.len(),
        row_bytes(row) == payload.subrange(off, cell.next),
{
    reveal(cell_at);
    lemma_fixed_width(payload, off);
    lemma_fixed_width(payload, off + 4);
    lemma_fixed_width(payload, off + 8);
    lemma_le_bytes_of_nat(payload.subrange(off, off + 4));
    lemma_le_bytes_of_nat(payload.subrange(off + 4, off + 8));
    lemma_le_bytes_of_nat(payload.subrange(off + 8, off + 16));
    let key_end = off + 17 + u32_at(payload, off);
    let part = payload.subrange(off, cell.next);
    assert(stored_value(row.1.1) =~= cell.value);
    assert(row_bytes(row) =~= payload.subrange(off, off + 4) + payload.subrange(off + 4, off + 8)
        + payload.subrange(off + 8, off + 16) + seq![payload[off + 16]] + payload.subrange(
        off + 17,
        key_end,
    ) + payload.subrange(key_end, cell.next));
    assert(row_bytes(row) =~= part);
}

proof fn lemma_rows_bytes_first(row: Row, rest: Seq<Row>)
    ensures
        rows_bytes(seq![row] + rest) == row_bytes(row) + rows_bytes(rest),
{
    let a = seq![row_bytes(row)];
    let b = crate::sstable::row_pieces(rest);
    crate::laws::numbers::law_joined(a, b, row_bytes(row));
    assert(crate::sstable::row_pieces(seq![row] + rest) =~= a + b);
}

/// A search in a payload takes the first record with the key, and ends at the first
/// larger key.
pub proof fn law_search_in_payload(payload: Seq<u8>, off: int, key: Seq<u8>)
    ensures
        off >= payload.len() ==> scan_from(payload, off, key) == Ok::<Option<Version>, Error>(None),
        off < payload.len() ==> match cell_at(payload, off) {
            Err(e) => scan_from(payload, off, key) == Err::<Option<Version>, Error>(e),
            Ok(cell) => {
                &&& cell.key == key ==> match cell_version(cell) {
                    Ok(version) => scan_from(payload, off, key) == Ok::<Option<Version>, Error>(
                        Some(version),
                    ),
                    Err(e) => scan_from(payload, off, key) == Err::<Option<Version>, Error>(e),
                }
                &&& cell.key != key && lex_lt(key, cell.key) ==> scan_from(payload, off, key)
                    == Ok::<Option<Version>, Error>(None)
                &&& cell.key != key && !lex_lt(key, cell.key) ==> scan_from(payload, off, key)
                    == scan_from(payload, cell.next, key)
            },
        },
{
    reveal(cell_at);
}

// ---------------------------------------------------------------------------
// Blocks
// ---------------------------------------------------------------------------

/// Where the parts of a block lie: `BLK1`, CRC, payload length, record count, payload.
pub proof fn law_block_layout(payload: Seq<u8>, record_count: u32, crc: u32)
    requires
        payload.len() <= u32::MAX,
    ensures
        ({
            let b = encoded_block(payload, record_count, crc);
            &&& b.len() == 16 + payload.len()
            &&& b.take(4) == seq![66u8, 76u8, 75u8, 49u8]
            &&& u32_at(b, 4) == crc
            &&& u32_at(b, 8) == payload.len()
            &&& u32_at(b, 12) == record_count
            &&& b.skip(16) == payload
        }),
{
    let b = encoded_block(payload, record_count, crc);
    law_block_header_roundtrip(crc, payload.len() as u32, record_count, payload);
    lemma_le_bytes_len(crc as nat, 4);
    lemma_le_bytes_len(payload.len(), 4);
    lemma_le_bytes_len(record_count as nat, 4);
    assert(b.take(4) =~= seq![66u8, 76u8, 75u8, 49u8]);
    assert(b.skip(16) =~= payload);
}

/// The block of rows counts them and carries the CRC of their records.
pub proof fn law_block_of_rows(rows: Seq<Row>)
    ensures
        block_bytes(rows) == encoded_block(
            rows_bytes(rows),
            rows.len() as u32,
            crc32(rows_bytes(rows)),
        ),
{
}

/// A block begins with `BLK1`; it is at least its header and the payload that the
/// header announces.
pub proof fn law_block_reading(block: Seq<u8>)
    requires
        block.len() <= usize::MAX,
    ensures
        ({
            let r = block_payload(block);
            let magic = block[0] == 66 && block[1] == 76 && block[2] == 75 && block[3] == 49;
            let end = 16 + u32_at(block, 8);
            &&& block.len() < 16 ==> check_block_header(block) == Err::<(), Error>(
                Error::SstCorrupt("BlockHeader truncada"),
            )
            &&& block.len() < 16 ==> r == Err::<Seq<u8>, Error>(
                Error::SstCorrupt("BlockHeader truncada"),
            )
            &&& block.len() >= 16 && !magic ==> check_block_header(block) == Err::<(), Error>(
                Error::SstCorrupt("magic de bloque"),
            )
            &&& block.len() >= 16 && !magic ==> r == Err::<Seq<u8>, Error>(
                Error::SstCorrupt("magic de bloque"),
            )
            &&& block.len() >= 16 && magic ==> check_block_header(block) == Ok::<(), Error>(())
            &&& block.len() >= 16 && magic && end > usize::MAX ==> r == Err::<Seq<u8>, Error>(
                Error::SstCorrupt("payload_len"),
            )
            &&& block.len() >= 16 && magic && block.len() < end <= usize::MAX ==> r == Err::<
                Seq<u8>,
                Error,
            >(Error::SstCorrupt("payload truncado"))
            &&& block.len() >= 16 && magic && end <= block.len() ==> r == Ok::<Seq<u8>, Error>(
                block.subrange(16, end),
            )
        }),
{
    if block.len() >= 16 {
        let head = block.subrange(0, 4);
        let magic = seq![66u8, 76u8, 75u8, 49u8];
        assert(crate::sstable::BLOCK_MAGIC@ =~= magic);
        assert(head[0] == block[0] && head[1] == block[1] && head[2] == block[2] && head[3]
            == block[3]);
        assert(magic[0] == 66 && magic[1] == 76 && magic[2] == 75 && magic[3] == 49);
        if block[0] == 66 && block[1] == 76 && block[2] == 75 && block[3] == 49 {
            assert(head =~= magic);
        }
    }
}

/// A block whose CRC is not that of its header is an error for every key; otherwise
/// its payload is searched from the beginning.
pub proof fn law_block_search(block: Seq<u8>, crc: u32, key: Seq<u8>)
    ensures
        match block_payload(block) {
            Err(e) => block_find(block, crc, key) == Err::<Option<Version>, Error>(e),
            Ok(payload) => {
                &&& crc != u32_at(block, 4) ==> block_find(block, crc, key) == Err::<
                    Option<Version>,
                    Error,
                >(Error::SstCorrupt("CRC de bloque"))
                &&& crc == u32_at(block, 4) ==> block_find(block, crc, key) == scan_from(
                    payload,
                    0,
                    key,
                )
            },
        },
{
}

// ---------------------------------------------------------------------------
// The index
// ---------------------------------------------------------------------------

/// Where the parts of an index entry lie: block offset, block length, key length, key.
pub proof fn law_index_entry_layout(row: IndexRow)
    requires
        row.key.len() <= u32::MAX,
    ensures
        ({
            let b = index_row_bytes(row);
            &&& b.len() == 16 + row.key.len()
            &&& u64_at(b, 0) == row.block_offset
            &&& u32_at(b, 8) == row.block_len
            &&& u32_at(b, 12) == row.key.len()
            &&& b.skip(16) == row.key
        }),
{
    let b = index_row_bytes(row);
    law_index_entry_roundtrip(row.block_offset, row.block_len, row.key.len() as u32, row.key);
    lemma_le_bytes_len(row.block_offset as nat, 8);
    lemma_le_bytes_len(row.block_len as nat, 4);
    lemma_le_bytes_len(row.key.len(), 4);
    assert(b.skip(16) =~= row.key);
}

/// An index is its entries one after the other.
pub proof fn law_index_bytes(rows: Seq<IndexRow>, row: IndexRow)
    ensures
        index_bytes(seq![]) == Seq::<u8>::empty(),
        index_bytes(rows.push(row)) == index_bytes(rows) + index_row_bytes(row),
{
    assert(crate::sstable::index_pieces(seq![]) =~= seq![]);
    crate::bytes::lemma_joined_push(crate::sstable::index_pieces(rows), index_row_bytes(row));
    assert(crate::sstable::index_pieces(rows.push(row)) =~= crate::sstable::index_pieces(
        rows,
    ).push(index_row_bytes(row)));
}

/// An index is read entry by entry: to its end, or to the first error.
pub proof fn law_index_reading(bytes: Seq<u8>, off: int, overflow: Error)
    requires
        0 <= off,
        bytes.len() <= usize::MAX,
    ensures
        ({
            let r = index_rows(bytes, off, overflow);
            let end = off + 16 + u32_at(bytes, off + 12);
            &&& off >= bytes.len() ==> r == Ok::<Seq<IndexRow>, Error>(seq![])
            &&& off < bytes.len() && bytes.len() - off < 16 ==> r == Err::<Seq<IndexRow>, Error>(
                Error::SstCorrupt("IndexEntry truncada"),
            )
            &&& bytes.len() - off >= 16 && end > usize::MAX ==> r == Err::<Seq<IndexRow>, Error>(
                overflow,
            )
            &&& bytes.len() - off >= 16 && bytes.len() < end <= usize::MAX ==> r == Err::<
                Seq<IndexRow>,
                Error,
            >(Error::SstCorrupt("first-key truncada"))
            &&& bytes.len() - off >= 16 && end <= bytes.len() ==> match index_rows(
                bytes,
                end,
                overflow,
            ) {
                Err(e) => r == Err::<Seq<IndexRow>, Error>(e),
                Ok(rest) => r == Ok::<Seq<IndexRow>, Error>(
                    seq![
                        IndexRow {
                            key: bytes.subrange(off + 16, end),
                            block_offset: u64_at(bytes, off),
                            block_len: u32_at(bytes, off + 8),
                        },
                    ] + rest,
                ),
            }
        }),
{
}

/// An index at a place in the file that no machine word can say is refused, and so is
/// an entry whose key would lie there.
pub proof fn law_index_place(bytes: Seq<u8>, index_file_offset: u64, base: int, off: int)
    requires
        0 <= off,
        bytes.len() <= usize::MAX,
    ensures
        index_file_offset > usize::MAX ==> parsed_index(bytes, index_file_offset) == Err::<
            Seq<IndexRow>,
            Error,
        >(Error::SstCorrupt("offset no cabe en usize")),
        index_file_offset <= usize::MAX ==> parsed_index(bytes, index_file_offset) == slot_rows(
            bytes,
            index_file_offset as int,
            0,
        ),
        bytes.len() - off >= 16 && off + 16 + u32_at(bytes, off + 12) <= bytes.len() && base + off
            + 16 > usize::MAX ==> slot_rows(bytes, base, off) == Err::<Seq<IndexRow>, Error>(
            Error::SstCorrupt("offset de first-key"),
        ),
{
}

// ---------------------------------------------------------------------------
// The footer
// ---------------------------------------------------------------------------

/// The footer, byte by byte: `SST1`, version 1, flags, eight numbers of 64 bits, the
/// CRC, zeros.
pub proof fn law_footer_layout(flags: u16, numbers: Seq<u64>, crc: u32)
    requires
        numbers.len() == 8,
    ensures
        ({
            let b = footer_bytes(
                footer_head(seq![83u8, 83u8, 84u8, 49u8], 1, flags, numbers),
                crc,
            );
            &&& b.len() == 128
            &&& b.take(6) == seq![83u8, 83u8, 84u8, 49u8, 1u8, 0u8]
            &&& u16_at(b, 6) == flags
            &&& u64_at(b, 8) == numbers[0]
            &&& u64_at(b, 16) == numbers[1]
            &&& u64_at(b, 24) == numbers[2]
            &&& u64_at(b, 32) == numbers[3]
            &&& u64_at(b, 40) == numbers[4]
            &&& u64_at(b, 48) == numbers[5]
            &&& u64_at(b, 56) == numbers[6]
            &&& u64_at(b, 64) == numbers[7]
            &&& u32_at(b, 72) == crc
            &&& forall|i: int| 76 <= i < 128 ==> #[trigger] b[i] == 0
        }),
{
    let magic = seq![83u8, 83u8, 84u8, 49u8];
    assert(crate::sstable::SST_MAGIC@ =~= magic);
    let head = footer_head(magic, 1, flags, numbers);
    let b = footer_bytes(head, crc);
    law_footer_roundtrip(flags, numbers, crc);
    lemma_le_bytes_len(crc as nat, 4);
    reveal_with_fuel(le_bytes, 3);
    assert(head.take(6) =~= seq![83u8, 83u8, 84u8, 49u8, 1u8, 0u8]);
    assert(head == b.subrange(0, 72));
    assert(b.take(6) =~= head.take(6));
    assert(numbers[0] == u64_at(b, 8));
    assert(numbers[1] == u64_at(b, 16));
    assert(numbers[2] == u64_at(b, 24));
    assert(numbers[3] == u64_at(b, 32));
    assert(numbers[4] == u64_at(b, 40));
    assert(numbers[5] == u64_at(b, 48));
    assert(numbers[6] == u64_at(b, 56));
    assert(numbers[7] == u64_at(b, 64));
}

/// The footer that a structure stands for, field by field.
pub proof fn law_footer_fields(f: SstFooter)
    ensures
        f.head_bytes() == footer_head(
            f.magic@,
            f.version,
            f.flags,
            seq![
                f.index_offset,
                f.index_len,
                f.bloom_offset,
                f.bloom_len,
                f.entry_count,
                f.block_count,
                f.min_seq,
                f.max_seq,
            ],
        ),
        f.to_bytes() == footer_bytes(f.head_bytes(), crc32(f.head_bytes())),
{
}

/// What a structure that was read holds, field by field.
pub proof fn law_footer_read(f: SstFooter, bytes: Seq<u8>)
    requires
        f.reads(bytes),
    ensures
        f.magic@ == seq![83u8, 83u8, 84u8, 49u8],
        f.version == 1,
        f.flags == u16_at(bytes, 6),
        f.index_offset == u64_at(bytes, 8),
        f.index_len == u64_at(bytes, 16),
        f.bloom_offset == u64_at(bytes, 24),
        f.bloom_len == u64_at(bytes, 32),
        f.entry_count == u64_at(bytes, 40),
        f.block_count == u64_at(bytes, 48),
        f.min_seq == u64_at(bytes, 56),
        f.max_seq == u64_at(bytes, 64),
        f.checksum == u32_at(bytes, 72),
        forall|i: int| 0 <= i < 52 ==> #[trigger] f._pad@[i] == 0,
{
    assert(crate::sstable::SST_MAGIC@ =~= seq![83u8, 83u8, 84u8, 49u8]);
}

/// A footer is 128 bytes that begin with `SST1` and version 1 and hold the given CRC;
/// what is missing first is the error.
pub proof fn law_footer_check(bytes: Seq<u8>, crc: u32)
    ensures
        ({
            let r = check_footer(bytes, crc);
            let magic = bytes[0] == 83 && bytes[1] == 83 && bytes[2] == 84 && bytes[3] == 49;
            &&& bytes.len() < 128 ==> r == Err::<(), Error>(Error::SstCorrupt("footer truncado"))
            &&& bytes.len() >= 128 && !magic ==> r == Err::<(), Error>(
                Error::SstCorrupt("magic de footer"),
            )
            &&& bytes.len() >= 128 && magic && u16_at(bytes, 4) != 1 ==> r == Err::<(), Error>(
                Error::SstCorrupt("versión de SST"),
            )
            &&& bytes.len() >= 128 && magic && u16_at(bytes, 4) == 1 && u32_at(bytes, 72) != crc
                ==> r == Err::<(), Error>(Error::SstCorrupt("checksum de footer"))
            &&& bytes.len() >= 128 && magic && u16_at(bytes, 4) == 1 && u32_at(bytes, 72) == crc
                ==> r == Ok::<(), Error>(())
        }),
{
    if bytes.len() >= 128 {
        let head = bytes.subrange(0, 4);
        let magic = seq![83u8, 83u8, 84u8, 49u8];
        assert(crate::sstable::SST_MAGIC@ =~= magic);
        assert(head[0] == bytes[0] && head[1] == bytes[1] && head[2] == bytes[2] && head[3]
            == bytes[3]);
        assert(magic[0] == 83 && magic[1] == 83 && magic[2] == 84 && magic[3] == 49);
        if bytes[0] == 83 && bytes[1] == 83 && bytes[2] == 84 && bytes[3] == 49 {
            assert(head =~= magic);
        }
    }
}

/// The footer of a file is its last 128 bytes, checked against the CRC of the first 72
/// of them.
pub proof fn law_footer_of_file(file: Seq<u8>)
    ensures
        file.len() < 128 ==> check_footer_of(file) == Err::<(), Error>(
            Error::SstCorrupt("archivo más corto que el footer"),
        ),
        file.len() >= 128 ==> footer_part(file) == file.skip(file.len() - 128),
        file.len() >= 128 ==> check_footer_of(file) == check_footer(
            file.skip(file.len() - 128),
            crc32(file.skip(file.len() - 128).take(72)),
        ),
{
    if file.len() >= 128 {
        assert(footer_part(file) =~= file.skip(file.len() - 128));
        assert(footer_part(file).subrange(0, 72) =~= file.skip(file.len() - 128).take(72));
    }
}

// ---------------------------------------------------------------------------
// Opening and looking up
// ---------------------------------------------------------------------------

/// A part of a file is its bytes from the offset on, as many as asked for, if they
/// are there.
pub proof fn law_file_range(file: Seq<u8>, offset: u64, len: u64)
    requires
        file.len() <= usize::MAX,
    ensures
        offset + len <= file.len() ==> file_range(file, offset, len) == Ok::<Seq<u8>, Error>(
            file.subrange(offset as int, offset + len),
        ),
        offset > usize::MAX || len > usize::MAX ==> file_range(file, offset, len) == Err::<
            Seq<u8>,
            Error,
        >(Error::SstCorrupt("offset no cabe en usize")),
        offset <= usize::MAX && len <= usize::MAX && offset + len > usize::MAX ==> file_range(
            file,
            offset,
            len,
        ) == Err::<Seq<u8>, Error>(Error::SstCorrupt("rango overflow")),
        offset <= usize::MAX && len <= usize::MAX && file.len() < offset + len <= usize::MAX
            ==> file_range(file, offset, len) == Err::<Seq<u8>, Error>(
            Error::SstCorrupt("rango fuera del mmap"),
        ),
{
}

/// A table opens where index and filter lie in the file as said, both can be read, and
/// the index has as many entries as said; what is wrong first is the error.
pub proof fn law_table_opening(
    file: Seq<u8>,
    index_offset: u64,
    index_len: u64,
    bloom_offset: u64,
    bloom_len: u64,
    block_count: u64,
)
    ensures
        ({
            let index_part = file_range(file, index_offset, index_len);
            let bloom_part = file_range(file, bloom_offset, bloom_len);
            let index = index_rows(index_part->Ok_0, 0, Error::SstCorrupt("first_key_len"));
            let filter = parse_filter(bloom_part->Ok_0);
            let r = table_with(
                file,
                index_offset,
                index_len,
                bloom_offset,
                bloom_len,
                block_count,
            );
            &&& index_part is Err ==> r is Err && r->Err_0 == index_part->Err_0
            &&& index_part is Ok && bloom_part is Err ==> r is Err && r->Err_0 == bloom_part->Err_0
            &&& index_part is Ok && bloom_part is Ok ==> {
                &&& filter is Err ==> r is Err && r->Err_0 == filter->Err_0
                &&& filter is Ok && index is Err ==> r is Err && r->Err_0 == index->Err_0
                &&& filter is Ok && index is Ok && index->Ok_0.len() != block_count ==> r is Err
                    && r->Err_0 == Error::SstCorrupt("block_count no coincide con el índice")
                &&& filter is Ok && index is Ok && index->Ok_0.len() == block_count ==> r == Ok::<
                    Table,
                    Error,
                >(Table { file, filter: filter->Ok_0, index: index->Ok_0 })
            }
        }),
{
}

/// A file opens as a table with the places and the block count that its footer says,
/// if the footer is right.
pub proof fn law_file_opens(file: Seq<u8>)
    ensures
        check_footer_of(file) is Err ==> table_in(file) is Err && table_in(file)->Err_0
            == check_footer_of(file)->Err_0,
        check_footer_of(file) is Ok ==> table_in(file) == table_with(
            file,
            u64_at(footer_part(file), 8),
            u64_at(footer_part(file), 16),
            u64_at(footer_part(file), 24),
            u64_at(footer_part(file), 32),
            u64_at(footer_part(file), 48),
        ),
{
}

/// The block of an index entry is that part of the file, if it is there.
pub proof fn law_block_in_file(file: Seq<u8>, row: IndexRow)
    requires
        file.len() <= usize::MAX,
    ensures
        row.block_offset + row.block_len <= file.len() ==> block_at(file, row) == Ok::<
            Seq<u8>,
            Error,
        >(file.subrange(row.block_offset as int, row.block_offset + row.block_len)),
        row.block_offset > usize::MAX ==> block_at(file, row) == Err::<Seq<u8>, Error>(
            Error::SstCorrupt("offset no cabe en usize"),
        ),
        row.block_offset <= usize::MAX && row.block_offset + row.block_len > usize::MAX
            ==> block_at(file, row) == Err::<Seq<u8>, Error>(Error::SstCorrupt("block_len")),
        row.block_offset <= usize::MAX && file.len() < row.block_offset + row.block_len
            <= usize::MAX ==> block_at(file, row) == Err::<Seq<u8>, Error>(
            Error::SstCorrupt("bloque fuera de rango"),
        ),
{
}

/// A lookup in a table whose first keys increase: an empty key is an error; a key that
/// the filter does not know, or that is before the first block, is not there; else the
/// last block whose first key does not exceed the key is searched, and that block
/// alone.
pub proof fn law_table_lookup(table: Table, key: Seq<u8>, p: int)
    requires
        forall|i: int, j: int|
            0 <= i < j < table.index.len() ==> lex_lt(
                #[trigger] table.index[i].key,
                #[trigger] table.index[j].key,
            ),
        0 <= p <= table.index.len(),
        p > 0 ==> table.index[p - 1].key == key || lex_lt(table.index[p - 1].key, key),
        p < table.index.len() ==> lex_lt(key, table.index[p].key),
    ensures
        key.len() == 0 ==> table.lookup(key) == Err::<Option<Version>, Error>(Error::EmptyKey),
        key.len() > 0 && !table.filter.may_contain(key) ==> table.lookup(key) == Ok::<
            Option<Version>,
            Error,
        >(None),
        key.len() > 0 && table.filter.may_contain(key) && p == 0 ==> table.lookup(key) == Ok::<
            Option<Version>,
            Error,
        >(None),
        key.len() > 0 && table.filter.may_contain(key) && p > 0 ==> match block_at(
            table.file,
            table.index[p - 1],
        ) {
            Err(e) => table.lookup(key) == Err::<Option<Version>, Error>(e),
            Ok(block) => match block_payload(block) {
                Err(e) => table.lookup(key) == Err::<Option<Version>, Error>(e),
                Ok(payload) => table.lookup(key) == block_find(block, crc32(payload), key),
            },
        },
{
    reveal(Table::lookup);
    crate::sstable::reader::law_bisect_splits(table.index, key);
    let q = crate::sstable::reader::bisect(table.index, key, 0, table.index.len() as int);
    lemma_lex_irreflexive(key);
    if q < p {
        assert(lex_lt(key, table.index[p - 1].key));
        crate::bytes::lemma_lex_asymmetric(key, table.index[p - 1].key);
    }
    if p < q {
        assert(crate::bytes::lex_le(table.index[p].key, key));
        crate::bytes::lemma_lex_asymmetric(key, table.index[p].key);
    }
}

// ---------------------------------------------------------------------------
// Rows become blocks
// ---------------------------------------------------------------------------

/// All rows of the blocks, block after block.
pub proof fn law_rows_of_blocks(blocks: Seq<Seq<Row>>, block: Seq<Row>)
    ensures
        rows_of(seq![]) == Seq::<Row>::empty(),
        rows_of(blocks.push(block)) == rows_of(blocks) + block,
{
    assert(blocks.push(block).drop_last() =~= blocks);
}

/// The smallest and the largest number of rows: both are among the rows, and all
/// numbers lie between; both are 0 if there are no rows.
pub proof fn law_number_range(rows: Seq<Row>)
    ensures
        rows.len() == 0 ==> lowest_seq(rows) == 0 && highest_seq(rows) == 0,
        forall|i: int|
            0 <= i < rows.len() ==> lowest_seq(rows) <= (#[trigger] rows[i]).1.0 <= highest_seq(
                rows,
            ),
        rows.len() > 0 ==> exists|i: int|
            0 <= i < rows.len() && (#[trigger] rows[i]).1.0 == lowest_seq(rows),
        rows.len() > 0 ==> exists|i: int|
            0 <= i < rows.len() && (#[trigger] rows[i]).1.0 == highest_seq(rows),
    decreases rows.len(),
{
    if rows.len() > 0 {
        let front = rows.drop_last();
        let last = rows.len() - 1;
        law_number_range(front);
        assert(forall|i: int| 0 <= i < front.len() ==> #[trigger] front[i] == rows[i]);
        assert forall|i: int| 0 <= i < rows.len() implies lowest_seq(rows) <= (
        #[trigger] rows[i]).1.0 <= highest_seq(rows) by {
            if i < last {
                assert(front[i] == rows[i]);
            }
        }
        if lowest_seq(rows) == rows[last].1.0 {
        } else {
            let i = choose|i: int|
                0 <= i < front.len() && (#[trigger] front[i]).1.0 == lowest_seq(front);
            assert(rows[i].1.0 == lowest_seq(rows));
        }
        if highest_seq(rows) == rows[last].1.0 {
        } else {
            let i = choose|i: int|
                0 <= i < front.len() && (#[trigger] front[i]).1.0 == highest_seq(front);
            assert(rows[i].1.0 == highest_seq(rows));
        }
    }
}

/// A row can become a record iff key and value are at most 2^32 - 1 bytes, and a row of
/// records a block iff header and records are; the error says the length that is too
/// large.
pub proof fn law_what_fits(rows: Seq<Row>, row: Row)
    ensures
        row_fault(row) is None <==> row.0.len() <= u32::MAX && stored_value(row.1.1).len()
            <= u32::MAX,
        row.0.len() > u32::MAX ==> row_fault(row) == Some(
            Error::SstRecordTooLarge { size: row.0.len() as usize },
        ),
        row.0.len() <= u32::MAX && stored_value(row.1.1).len() > u32::MAX ==> row_fault(row)
            == Some(Error::SstRecordTooLarge { size: stored_value(row.1.1).len() as usize }),
        block_fault(rows) is None <==> 16 + rows_bytes(rows).len() <= u32::MAX,
        rows_bytes(rows).len() > u32::MAX ==> block_fault(rows) == Some(
            Error::SstRecordTooLarge { size: rows_bytes(rows).len() as usize },
        ),
        16 + rows_bytes(rows).len() > u32::MAX && 16 + rows_bytes(rows).len() <= usize::MAX
            && rows_bytes(rows).len() <= u32::MAX ==> block_fault(rows) == Some(
            Error::SstRecordTooLarge { size: (16 + rows_bytes(rows).len()) as usize },
        ),
{
}

/// A row that can become a record joins the block being filled if that is empty or
/// stays within the target size with it; else the block is finished and the row begins
/// the next.
pub proof fn law_row_joins_block(d: Draft, row: Row)
    requires
        row.0.len() <= u32::MAX,
        stored_value(row.1.1).len() <= u32::MAX,
        rows_bytes(d.pending).len() + 17 + row.0.len() + stored_value(row.1.1).len() <= usize::MAX,
    ensures
        ({
            let size = rows_bytes(d.pending).len() + 17 + row.0.len() + stored_value(
                row.1.1,
            ).len();
            let (next, r) = d.added(row);
            &&& d.pending.len() == 0 || size <= d.block_size ==> r == Ok::<(), Error>(())
                && next.blocks == d.blocks && next.pending == d.pending.push(row)
            &&& d.pending.len() > 0 && size > d.block_size && 16 + rows_bytes(d.pending).len()
                <= u32::MAX ==> r == Ok::<(), Error>(()) && next.blocks == d.blocks.push(d.pending)
                && next.pending == seq![row]
            &&& d.pending.len() > 0 && size > d.block_size && 16 + rows_bytes(d.pending).len()
                > u32::MAX ==> next == d && r is Err && block_fault(d.pending) == Some(r->Err_0)
            &&& next.block_size == d.block_size
            &&& next.base == d.base
        }),
{
    lemma_row_bytes_len(row);
    let empty: Seq<Row> = seq![];
    assert(empty.push(row) =~= seq![row]);
}

/// A finished table has the last rows in a block of their own, if there are any.
pub proof fn law_table_is_finished(d: Draft)
    ensures
        d.pending.len() == 0 ==> d.completed() == Ok::<Draft, Error>(d),
        d.pending.len() > 0 && 16 + rows_bytes(d.pending).len() <= u32::MAX ==> d.completed() is Ok
            && d.completed()->Ok_0.blocks == d.blocks.push(d.pending)
            && d.completed()->Ok_0.pending.len() == 0 && d.completed()->Ok_0.base == d.base,
        d.pending.len() > 0 && 16 + rows_bytes(d.pending).len() > u32::MAX ==> d.completed() is Err
            && block_fault(d.pending) == Some(d.completed()->Err_0),
{
}

/// A row that cannot become a record is refused with its error and joins no block; the
/// block being filled is finished if the row would not have fitted it.
pub proof fn law_row_is_refused(d: Draft, row: Row)
    requires
        row.0.len() > u32::MAX || stored_value(row.1.1).len() > u32::MAX,
        rows_bytes(d.pending).len() + 17 + row.0.len() + stored_value(row.1.1).len() <= usize::MAX,
    ensures
        ({
            let size = rows_bytes(d.pending).len() + 17 + row.0.len() + stored_value(
                row.1.1,
            ).len();
            let (next, r) = d.added(row);
            &&& r is Err
            &&& d.pending.len() == 0 || size <= d.block_size ==> next == d && row_fault(row)
                == Some(r->Err_0)
            &&& d.pending.len() > 0 && size > d.block_size && 16 + rows_bytes(d.pending).len()
                <= u32::MAX ==> next.blocks == d.blocks.push(d.pending) && next.pending.len() == 0
                && row_fault(row) == Some(r->Err_0)
            &&& d.pending.len() > 0 && size > d.block_size && 16 + rows_bytes(d.pending).len()
                > u32::MAX ==> next == d && block_fault(d.pending) == Some(r->Err_0)
        }),
{
    lemma_row_bytes_len(row);
}

/// A table begins without rows, with a filter that has room for the expected keys at
/// the density asked for.
pub proof fn law_new_table(expected_keys: nat, block_size: usize, bits_per_key: u8)
    ensures
        ({
            let r = new_draft(expected_keys, block_size, bits_per_key);
            let fits = expected_keys * (bits_per_key as nat) <= 64 * 8388608;
            &&& r is Ok <==> block_size > 0 && 1 <= bits_per_key <= 16 && fits
            &&& block_size == 0 ==> r is Err && r->Err_0 == Error::SstCorrupt(
                "block_size no puede ser 0",
            )
            &&& r is Ok ==> r->Ok_0.base == new_filter(
                if expected_keys == 0 {
                    1
                } else {
                    expected_keys
                },
                bits_per_key,
            )->Ok_0
            &&& r is Ok ==> r->Ok_0.blocks.len() == 0 && r->Ok_0.pending.len() == 0
                && r->Ok_0.block_size == block_size && r->Ok_0.base.bits_per_key == bits_per_key
                && 64 * r->Ok_0.base.words.len() >= expected_keys * (bits_per_key as nat)
                && r->Ok_0.base.valid() && (forall|i: int|
                0 <= i < r->Ok_0.base.words.len() ==> #[trigger] r->Ok_0.base.words[i] == 0)
        }),
{
    let keys: nat = if expected_keys == 0 {
        1
    } else {
        expected_keys
    };
    law_filter_refusals(keys, bits_per_key);
    if 1 <= bits_per_key <= 16 && keys * (bits_per_key as nat) <= 64 * 8388608 {
        law_filter_exists_within_limit(keys, bits_per_key);
    }
    assert(0 * (bits_per_key as nat) == 0);
    assert(1 * (bits_per_key as nat) == bits_per_key);
}

/// Writing a table succeeds whenever there is a target size, the density is 1 to 16,
/// the filter for the expected keys fits its limit, and a block of the target size as
/// well as each row alone fits the length fields.
pub proof fn law_table_is_written(
    rows: Seq<Row>,
    expected_keys: nat,
    block_size: usize,
    bits_per_key: u8,
)
    requires
        block_size > 0,
        16 + block_size <= u32::MAX,
        1 <= bits_per_key <= 16,
        expected_keys * (bits_per_key as nat) <= 64 * 8388608,
        forall|i: int|
            0 <= i < rows.len() ==> 33 + (#[trigger] rows[i]).0.len() + stored_value(
                rows[i].1.1,
            ).len() <= u32::MAX,
    ensures
        draft_of(rows, expected_keys, block_size, bits_per_key) is Ok,
{
    law_new_table(expected_keys, block_size, bits_per_key);
    assert forall|i: int| 0 <= i < rows.len() implies 16 + row_bytes(#[trigger] rows[i]).len()
        <= u32::MAX by {
        lemma_row_bytes_len(rows[i]);
    }
    law_small_rows_are_written(rows, expected_keys, block_size, bits_per_key);
}

/// A flush writes the listing of the table, with a filter for as many keys as there
/// are.
pub proof fn law_flush_writes_listing(m: Contents, block_size: usize, bits_per_key: u8)
    requires
        flushed(m, block_size, bits_per_key) is Ok,
    ensures
        ({
            let d = flushed(m, block_size, bits_per_key)->Ok_0;
            &&& d.rows() == listing(m)
            &&& d.pending.len() == 0
            &&& 64 * d.base.words.len() >= m.dom().len() * (bits_per_key as nat)
            &&& d.base.bits_per_key == bits_per_key
        }),
{
    crate::sstable::writer::law_draft_holds_rows(
        listing(m),
        m.dom().len(),
        block_size,
        bits_per_key,
    );
    law_new_table(m.dom().len(), block_size, bits_per_key);
    crate::sstable::writer::law_draft_keeps_filter(
        listing(m),
        m.dom().len(),
        block_size,
        bits_per_key,
    );
}

/// The filter of a table is the empty one with the keys of its rows.
pub proof fn law_table_filter(d: Draft)
    ensures
        d.filter() == d.base.insert_all(keys_of(d.rows())),
        keys_of(d.rows()).len() == d.rows().len(),
        forall|i: int| 0 <= i < d.rows().len() ==> #[trigger] keys_of(d.rows())[i] == d.rows()[i].0,
        d.rows() == rows_of(d.blocks) + d.pending,
{
}

/// Inserting keys one after the other.
pub proof fn law_insert_keys(f: Filter, keys: Seq<Seq<u8>>, key: Seq<u8>)
    ensures
        f.insert_all(seq![]) == f,
        f.insert_all(keys.push(key)) == f.insert_all(keys).insert(key),
{
    assert(keys.push(key).drop_last() =~= keys);
}

/// The parts of a table file, in order: blocks, index, filter, footer.
pub proof fn law_table_layout(blocks: Seq<Seq<Row>>, filter: Filter)
    ensures
        table_bytes(blocks, filter) == data_bytes(blocks) + index_bytes(index_of(blocks))
            + filter.to_bytes() + footer_bytes(
            table_head(blocks, filter),
            crc32(table_head(blocks, filter)),
        ),
        table_head(blocks, filter) == footer_head(
            crate::sstable::SST_MAGIC@,
            1,
            0,
            table_numbers(blocks, filter),
        ),
{
}

/// The data of a table is its blocks one after the other.
pub proof fn law_data_layout(blocks: Seq<Seq<Row>>, block: Seq<Row>)
    ensures
        data_bytes(seq![]) == Seq::<u8>::empty(),
        data_bytes(blocks.push(block)) == data_bytes(blocks) + block_bytes(block),
{
    assert(block_pieces(seq![]) =~= seq![]);
    crate::bytes::lemma_joined_push(block_pieces(blocks), block_bytes(block));
    assert(block_pieces(blocks.push(block)) =~= block_pieces(blocks).push(block_bytes(block)));
}

/// The index of a table has an entry for each block: its first key, where it begins,
/// and its length.
pub proof fn law_index_of_blocks(blocks: Seq<Seq<Row>>, i: int)
    requires
        0 <= i < blocks.len(),
        data_bytes(blocks).len() <= u64::MAX,
        16 + rows_bytes(blocks[i]).len() <= u32::MAX,
    ensures
        index_of(blocks).len() == blocks.len(),
        index_of(blocks)[i].key == blocks[i][0].0,
        index_of(blocks)[i].block_offset == data_bytes(blocks.take(i)).len(),
        index_of(blocks)[i].block_len == 16 + rows_bytes(blocks[i]).len(),
{
    let pieces = block_pieces(blocks);
    crate::bytes::lemma_joined_piece(pieces, i);
    assert(pieces.take(i) =~= block_pieces(blocks.take(i)));
    law_block_layout(
        rows_bytes(blocks[i]),
        blocks[i].len() as u32,
        crc32(rows_bytes(blocks[i])),
    );
}

/// The footer of a table file says where index and filter lie, how many rows and
/// blocks there are, and the range of the numbers.
pub proof fn law_footer_of_table(blocks: Seq<Seq<Row>>, filter: Filter)
    requires
        table_bytes(blocks, filter).len() <= usize::MAX,
    ensures
        ({
            let file = table_bytes(blocks, filter);
            let footer = file.skip(file.len() - 128);
            let data = data_bytes(blocks).len();
            let index = index_bytes(index_of(blocks)).len();
            &&& check_footer_of(file) == Ok::<(), Error>(())
            &&& u64_at(footer, 8) == data
            &&& u64_at(footer, 16) == index
            &&& u64_at(footer, 24) == data + index
            &&& u64_at(footer, 32) == filter.to_bytes().len()
            &&& u64_at(footer, 40) == rows_of(blocks).len()
            &&& u64_at(footer, 48) == blocks.len()
            &&& u64_at(footer, 56) == lowest_seq(rows_of(blocks))
            &&& u64_at(footer, 64) == highest_seq(rows_of(blocks))
        }),
{
    law_footer_says(blocks, filter);
    lemma_rows_of_len(blocks);
    let file = table_bytes(blocks, filter);
    assert(footer_part(file) =~= file.skip(file.len() - 128));
}

/// Rows are added one after the other, up to the first that fails; its error is the
/// result.
pub proof fn law_rows_are_added(d: Draft, rows: Seq<Row>, row: Row)
    ensures
        d.added_all(seq![]) == (d, Ok::<(), Error>(())),
        d.added_all(rows).1 is Ok ==> d.added_all(rows.push(row)) == d.added_all(rows).0.added(row),
        d.added_all(rows).1 is Err ==> d.added_all(rows.push(row)) == d.added_all(rows),
{
    assert(rows.push(row).drop_last() =~= rows);
}

/// A table of rows is begun, gets the rows, and is finished; the first error is the
/// result.
pub proof fn law_table_of_rows(
    rows: Seq<Row>,
    expected_keys: nat,
    block_size: usize,
    bits_per_key: u8,
)
    ensures
        ({
            let start = new_draft(expected_keys, block_size, bits_per_key);
            let r = draft_of(rows, expected_keys, block_size, bits_per_key);
            let added = start->Ok_0.added_all(rows);
            &&& start is Err ==> r is Err && r->Err_0 == start->Err_0
            &&& start is Ok && added.1 is Err ==> r is Err && r->Err_0 == added.1->Err_0
            &&& start is Ok && added.1 is Ok ==> r == added.0.completed()
        }),
{
}

/// An image is the bytes of its table; its summary counts rows, blocks and bytes.
pub proof fn law_image(image: SstImage, d: Draft)
    requires
        image.is_table(d),
    ensures
        image.bytes@ == table_bytes(d.blocks, d.filter()),
        image.meta.entry_count == d.rows().len(),
        image.meta.block_count == d.blocks.len(),
        image.meta.file_size == image.bytes@.len(),
{
}

/// A decoded record stands for its key, number and value; decoded records and index
/// entries are those that were read, in order.
pub proof fn law_decoded(
    records: Seq<DecodedRecord>,
    rows: Seq<Row>,
    pairs: Seq<(Vec<u8>, IndexEntry)>,
    entries: Seq<IndexRow>,
    i: int,
)
    ensures
        are_rows(records, rows) ==> records.len() == rows.len(),
        are_rows(records, rows) && 0 <= i < rows.len() ==> {
            &&& records[i].key@ == rows[i].0
            &&& records[i].seq == rows[i].1.0
            &&& records[i].value is Some <==> rows[i].1.1 is Some
            &&& records[i].value is Some ==> rows[i].1.1 == Some(records[i].value->Some_0@)
        },
        are_index_rows(pairs, entries) ==> pairs.len() == entries.len(),
        are_index_rows(pairs, entries) && 0 <= i < entries.len() ==> {
            &&& pairs[i].0@ == entries[i].key
            &&& pairs[i].1.block_offset == entries[i].block_offset
            &&& pairs[i].1.block_len == entries[i].block_len
            &&& pairs[i].1.first_key_len == entries[i].key.len()
        },
{
    if are_rows(records, rows) && 0 <= i < rows.len() {
        assert(records[i]@ == rows[i]);
    }
    if are_index_rows(pairs, entries) && 0 <= i < entries.len() {
        assert(is_index_row(pairs[i], entries[i]));
    }
}

/// A binary search halves: it goes on behind the middle if the key there does not
/// exceed the key sought, else before it.
pub proof fn law_search_halves(index: Seq<IndexRow>, key: Seq<u8>, lo: int, hi: int)
    ensures
        lo >= hi ==> bisect(index, key, lo, hi) == lo,
        lo < hi ==> {
            let mid = lo + (hi - lo) / 2;
            &&& index[mid].key == key || lex_lt(index[mid].key, key) ==> bisect(index, key, lo, hi)
                == bisect(index, key, mid + 1, hi)
            &&& index[mid].key != key && !lex_lt(index[mid].key, key) ==> bisect(
                index,
                key,
                lo,
                hi,
            ) == bisect(index, key, lo, mid)
        },
{
}

/// The sizes and kinds of the format.
pub proof fn law_format_constants()
    ensures
        crate::sstable::BLOCK_HEADER_SIZE == 16,
        crate::sstable::INDEX_ENTRY_SIZE == 16,
        crate::sstable::FOOTER_SIZE == 128,
        crate::sstable::DEFAULT_BLOCK_SIZE == 4096,
        crate::sstable::KIND_PUT == 1,
        crate::sstable::KIND_TOMBSTONE == 2,
        crate::sstable::SST_VERSION == 1,
        crate::wal::WAL_ALIGN == 4096,
        crate::wal::WAL_VERSION == 1,
        crate::wal::WAL_FLAG_DIRECT == 1,
        crate::wal::MAX_RECORD_BYTES == 16777216,
        crate::engine::DEFAULT_MEM_CAPACITY == 65536,
        crate::memtable::ENTRY_OVERHEAD == 16,
{
}

} // verus!
