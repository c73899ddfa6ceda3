//! What a table gives back of what was written into it.

use crate::bytes::{
    lemma_joined_piece, lemma_le_bytes_len, lemma_lex_asymmetric, lemma_lex_irreflexive,
    lemma_lex_total, lemma_lex_transitive, lemma_part_of_part, lex_le, lex_lt, u64_at,
};
use crate::crc::crc32;
use crate::error::Error;
use crate::index::bloom::{law_bytes_roundtrip, law_no_false_negatives, Filter};
use crate::sstable::reader::{
    bisect, block_at, block_find, block_payload, law_bisect_splits, scan_from, table_in, Table,
};
use crate::sstable::writer::{
    block_bytes, block_fits, block_offset, block_pieces, blocks_fit, data_bytes, flushed, index_of,
    keys_of, law_draft_holds_rows, lemma_rows_of_len, rows_fit, rows_of, table_bytes, table_head,
    table_numbers, Draft,
};
use crate::sstable::{
    check_footer_of, footer_bytes, footer_part, index_bytes, law_block_header_roundtrip, law_footer_roundtrip,
    law_index_roundtrip, lemma_cell_of_row, row_fits, row_offset, row_pieces, rows_bytes,
    FOOTER_SIZE,
};
use crate::types::{
    find_in, law_find_in_listing, law_listing_exists, lemma_find_in, listing, sorted_rows, stored,
    Contents, Row, Version,
};
use vstd::prelude::*;

verus! {

/// Where the rows of block `i` begin among all rows.
pub open spec fn block_start(blocks: Seq<Seq<Row>>, i: int) -> int {
    rows_of(blocks.take(i)).len() as int
}

proof fn lemma_row_position(blocks: Seq<Seq<Row>>, i: int, a: int)
    requires
        0 <= i < blocks.len(),
        0 <= a < blocks[i].len(),
    ensures
        0 <= block_start(blocks, i) + a < rows_of(blocks).len(),
        rows_of(blocks)[block_start(blocks, i) + a] == blocks[i][a],
    decreases blocks.len(),
{
    let front = blocks.drop_last();
    assert(front.take(i) =~= blocks.take(i));
    if i < front.len() {
        lemma_row_position(front, i, a);
    } else {
        assert(blocks.take(i) =~= front);
    }
}

proof fn lemma_block_starts(blocks: Seq<Seq<Row>>, i: int, j: int)
    requires
        0 <= i < j <= blocks.len(),
    ensures
        block_start(blocks, i) + blocks[i].len() <= block_start(blocks, j),
    decreases j,
{
    assert(blocks.take(j).drop_last() =~= blocks.take(j - 1));
    assert(blocks.take(j).last() == blocks[j - 1]);
    if i < j - 1 {
        lemma_block_starts(blocks, i, j - 1);
    }
}

/// Every row lies in some block.
proof fn lemma_block_of_row(blocks: Seq<Seq<Row>>, q: int) -> (r: (int, int))
    requires
        0 <= q < rows_of(blocks).len(),
    ensures
        0 <= r.0 < blocks.len(),
        0 <= r.1 < blocks[r.0].len(),
        blocks[r.0][r.1] == rows_of(blocks)[q],
    decreases blocks.len(),
{
    let front = blocks.drop_last();
    if q < rows_of(front).len() {
        let r = lemma_block_of_row(front, q);
        assert(front[r.0] == blocks[r.0]);
        r
    } else {
        (blocks.len() - 1, q - rows_of(front).len())
    }
}

/// Of sorted rows, a row of an earlier place in the blocks has a smaller key.
proof fn lemma_blocks_sorted(blocks: Seq<Seq<Row>>, i: int, a: int, j: int, b: int)
    requires
        sorted_rows(rows_of(blocks)),
        0 <= i <= j < blocks.len(),
        0 <= a < blocks[i].len(),
        0 <= b < blocks[j].len(),
        i < j || a < b,
    ensures
        lex_lt(blocks[i][a].0, blocks[j][b].0),
{
    lemma_row_position(blocks, i, a);
    lemma_row_position(blocks, j, b);
    if i < j {
        lemma_block_starts(blocks, i, j);
    }
    let rows = rows_of(blocks);
    assert(lex_lt(rows[block_start(blocks, i) + a].0, rows[block_start(blocks, j) + b].0));
}

/// A scan of a payload finds what a search in its rows finds.
proof fn lemma_scan_from(rows: Seq<Row>, i: int, key: Seq<u8>)
    requires
        0 <= i <= rows.len(),
        rows_fit(rows),
        sorted_rows(rows),
        rows_bytes(rows).len() <= usize::MAX,
        forall|j: int| 0 <= j < i ==> lex_lt(#[trigger] rows[j].0, key),
    ensures
        scan_from(rows_bytes(rows), row_offset(rows, i), key) == Ok::<Option<Version>, Error>(
            find_in(rows, key),
        ),
    decreases rows.len() - i,
{
    lemma_find_in(rows, key);
    lemma_lex_irreflexive(key);
    if i == rows.len() {
        assert(rows.take(i) =~= rows);
    } else {
        lemma_cell_of_row(rows, i);
        assert(row_fits(rows[i]));
        lemma_lex_total(rows[i].0, key);
        if rows[i].0 == key {
        } else if lex_lt(key, rows[i].0) {
            assert forall|j: int| 0 <= j < rows.len() implies #[trigger] rows[j].0 != key by {
                if j > i {
                    lemma_lex_transitive(key, rows[i].0, rows[j].0);
                }
            }
        } else {
            lemma_scan_from(rows, i + 1, key);
        }
    }
}

/// Looking for a key in the block that holds `rows` finds what a search in the
/// rows finds.
pub proof fn law_block_reads_back(rows: Seq<Row>, key: Seq<u8>)
    requires
        block_fits(rows),
        sorted_rows(rows),
        block_bytes(rows).len() <= usize::MAX,
    ensures
        block_payload(block_bytes(rows)) == Ok::<Seq<u8>, Error>(rows_bytes(rows)),
        block_find(block_bytes(rows), crc32(rows_bytes(rows)), key) == Ok::<
            Option<Version>,
            Error,
        >(find_in(rows, key)),
{
    let payload = rows_bytes(rows);
    let block = block_bytes(rows);
    let crc = crc32(payload);
    law_block_header_roundtrip(crc, payload.len() as u32, rows.len() as u32, payload);
    lemma_block_bytes_len(rows);
    assert(block.subrange(16, block.len() as int) =~= payload);
    assert(row_pieces(rows.take(0)) =~= seq![]);
    lemma_scan_from(rows, 0, key);
}

proof fn lemma_block_bytes_len(rows: Seq<Row>)
    ensures
        block_bytes(rows).len() == 16 + rows_bytes(rows).len(),
{
    lemma_le_bytes_len(crc32(rows_bytes(rows)) as nat, 4);
    lemma_le_bytes_len((rows_bytes(rows).len() as u32) as nat, 4);
    lemma_le_bytes_len((rows.len() as u32) as nat, 4);
}

/// The footer of a table says where its parts lie, how many rows and blocks there
/// are, and the range of the sequence numbers.
pub proof fn law_footer_says(blocks: Seq<Seq<Row>>, filter: Filter)
    ensures
        ({
            let file = table_bytes(blocks, filter);
            let footer = footer_part(file);
            let numbers = table_numbers(blocks, filter);
            &&& check_footer_of(file) == Ok::<(), Error>(())
            &&& file.len() == data_bytes(blocks).len() + index_bytes(index_of(blocks)).len()
                + filter.to_bytes().len() + FOOTER_SIZE
            &&& u64_at(footer, 8) == numbers[0]
            &&& u64_at(footer, 16) == numbers[1]
            &&& u64_at(footer, 24) == numbers[2]
            &&& u64_at(footer, 32) == numbers[3]
            &&& u64_at(footer, 40) == numbers[4]
            &&& u64_at(footer, 48) == numbers[5]
            &&& u64_at(footer, 56) == numbers[6]
            &&& u64_at(footer, 64) == numbers[7]
        }),
{
    let file = table_bytes(blocks, filter);
    let numbers = table_numbers(blocks, filter);
    let head = table_head(blocks, filter);
    let footer = footer_bytes(head, crc32(head));
    law_footer_roundtrip(0, numbers, crc32(head));
    assert(footer_part(file) =~= footer);
    assert(numbers[0] == u64_at(footer, 8));
    assert(numbers[1] == u64_at(footer, 16));
    assert(numbers[2] == u64_at(footer, 24));
    assert(numbers[3] == u64_at(footer, 32));
    assert(numbers[4] == u64_at(footer, 40));
    assert(numbers[5] == u64_at(footer, 48));
    assert(numbers[6] == u64_at(footer, 56));
    assert(numbers[7] == u64_at(footer, 64));
}

/// A table that was written opens: its filter and its index are those that were
/// written.
pub proof fn law_table_opens(blocks: Seq<Seq<Row>>, filter: Filter)
    requires
        blocks_fit(blocks),
        filter.valid(),
        table_bytes(blocks, filter).len() <= usize::MAX,
    ensures
        table_in(table_bytes(blocks, filter)) == Ok::<Table, Error>(
            Table { file: table_bytes(blocks, filter), filter, index: index_of(blocks) },
        ),
{
    let file = table_bytes(blocks, filter);
    let data = data_bytes(blocks);
    let index = index_bytes(index_of(blocks));
    let bloom = filter.to_bytes();
    let numbers = table_numbers(blocks, filter);
    law_footer_says(blocks, filter);
    let d = data.len() as int;
    let n = index.len() as int;
    let b = bloom.len() as int;
    assert(file.len() == d + n + b + 128);
    assert(numbers[0] == d);
    assert(numbers[1] == n);
    assert(numbers[2] == d + n);
    assert(numbers[3] == b);
    lemma_rows_of_len(blocks);
    assert(numbers[5] == blocks.len());
    assert(file.subrange(d, d + n) =~= index);
    assert(file.subrange(d + n, d + n + b) =~= bloom);
    law_bytes_roundtrip(filter);
    assert forall|i: int| 0 <= i < index_of(blocks).len() implies (#[trigger] index_of(
        blocks,
    )[i]).key.len() <= u32::MAX by {
        assert(block_fits(blocks[i]));
        assert(row_fits(blocks[i][0]));
    }
    law_index_roundtrip(index_of(blocks), Error::SstCorrupt("first_key_len"));
}

/// Each index entry of a table leads to its block.
pub proof fn law_index_leads_to_blocks(blocks: Seq<Seq<Row>>, filter: Filter, i: int)
    requires
        blocks_fit(blocks),
        table_bytes(blocks, filter).len() <= usize::MAX,
        0 <= i < blocks.len(),
    ensures
        block_at(table_bytes(blocks, filter), index_of(blocks)[i]) == Ok::<Seq<u8>, Error>(
            block_bytes(blocks[i]),
        ),
{
    let file = table_bytes(blocks, filter);
    let data = data_bytes(blocks);
    let pieces = block_pieces(blocks);
    lemma_joined_piece(pieces, i);
    assert(pieces.take(i) =~= block_pieces(blocks.take(i)));
    assert(file.subrange(0, data.len() as int) =~= data);
    lemma_part_of_part(file, 0, data, block_offset(blocks, i), block_bytes(blocks[i]).len() as int);
    lemma_block_bytes_len(blocks[i]);
    assert(block_fits(blocks[i]));
}

/// The first keys of the blocks of sorted rows increase.
proof fn lemma_index_sorted(blocks: Seq<Seq<Row>>)
    requires
        blocks_fit(blocks),
        sorted_rows(rows_of(blocks)),
    ensures
        forall|i: int, j: int|
            0 <= i < j < blocks.len() ==> lex_lt(
                #[trigger] index_of(blocks)[i].key,
                #[trigger] index_of(blocks)[j].key,
            ),
        forall|i: int| 0 <= i < blocks.len() ==> sorted_rows(#[trigger] blocks[i]),
{
    assert forall|i: int, j: int| 0 <= i < j < blocks.len() implies lex_lt(
        #[trigger] index_of(blocks)[i].key,
        #[trigger] index_of(blocks)[j].key,
    ) by {
        assert(block_fits(blocks[i]));
        assert(block_fits(blocks[j]));
        lemma_blocks_sorted(blocks, i, 0, j, 0);
    }
    assert forall|i: int| 0 <= i < blocks.len() implies sorted_rows(#[trigger] blocks[i]) by {
        let block = blocks[i];
        assert forall|a: int, b: int| 0 <= a < b < block.len() implies lex_lt(
            #[trigger] block[a].0,
            #[trigger] block[b].0,
        ) by {
            lemma_blocks_sorted(blocks, i, a, i, b);
        }
    }
}

/// Only the last block whose first key does not exceed `key` can hold `key`.
proof fn lemma_one_block(blocks: Seq<Seq<Row>>, p: int, key: Seq<u8>)
    requires
        blocks_fit(blocks),
        sorted_rows(rows_of(blocks)),
        0 <= p <= blocks.len(),
        forall|i: int| 0 <= i < p ==> lex_le(#[trigger] index_of(blocks)[i].key, key),
        forall|i: int| p <= i < blocks.len() ==> lex_lt(key, #[trigger] index_of(blocks)[i].key),
    ensures
        find_in(rows_of(blocks), key) == if p == 0 {
            None::<Version>
        } else {
            find_in(blocks[p - 1], key)
        },
{
    let rows = rows_of(blocks);
    lemma_find_in(rows, key);
    lemma_index_sorted(blocks);
    if p > 0 {
        let block = blocks[p - 1];
        lemma_find_in(block, key);
        if find_in(block, key) is Some {
            let a = choose|a: int| 0 <= a < block.len() && #[trigger] block[a].0 == key;
            lemma_row_position(blocks, p - 1, a);
            assert(rows[block_start(blocks, p - 1) + a].0 == key);
        }
    }
    if find_in(rows, key) is Some {
        let q = choose|q: int| 0 <= q < rows.len() && #[trigger] rows[q].0 == key;
        let (i, a) = lemma_block_of_row(blocks, q);
        assert(block_fits(blocks[i]));
        let first = index_of(blocks)[i].key;
        if a > 0 {
            lemma_blocks_sorted(blocks, i, 0, i, a);
        }
        assert(lex_le(first, key));
        if p <= i {
            lemma_lex_asymmetric(key, first);
        }
        if i < p - 1 {
            assert(block_fits(blocks[p - 1]));
            lemma_blocks_sorted(blocks, i, a, p - 1, 0);
            assert(lex_le(index_of(blocks)[p - 1].key, key));
            lemma_lex_asymmetric(key, index_of(blocks)[p - 1].key);
        }
        assert(blocks[p - 1][a].0 == key);
    }
}

/// A table gives back, for every key, exactly what was written into it: the
/// version if the key was written, nothing if it was not.
pub proof fn law_table_reads_back(d: Draft, key: Seq<u8>)
    requires
        d.valid(),
        d.pending.len() == 0,
        sorted_rows(d.rows()),
        d.to_bytes().len() <= usize::MAX,
        key.len() > 0,
    ensures
        table_in(d.to_bytes()) is Ok,
        table_in(d.to_bytes())->Ok_0.lookup(key) == Ok::<Option<Version>, Error>(
            find_in(d.rows(), key),
        ),
{
    reveal(Table::lookup);
    let blocks = d.blocks;
    let rows = d.rows();
    let keys = keys_of(rows);
    let filter = d.filter();
    assert(rows =~= rows_of(blocks));
    law_no_false_negatives(d.base, keys);
    law_table_opens(blocks, filter);
    lemma_index_sorted(blocks);
    law_bisect_splits(index_of(blocks), key);
    let p = bisect(index_of(blocks), key, 0, blocks.len() as int);
    lemma_one_block(blocks, p, key);
    if find_in(rows, key) is Some {
        lemma_find_in(rows, key);
        let q = choose|q: int| 0 <= q < rows.len() && #[trigger] rows[q].0 == key;
        assert(keys[q] == key);
    }
    if p > 0 {
        let block = blocks[p - 1];
        assert(block_fits(block));
        law_index_leads_to_blocks(blocks, filter, p - 1);
        lemma_joined_piece(block_pieces(blocks), p - 1);
        law_block_reads_back(block, key);
    }
}

/// A flush loses nothing and invents nothing: the table that it writes answers
/// every key as the table in memory does, tombstones included.
pub proof fn law_flush_then_read(m: Contents, block_size: usize, bits_per_key: u8, key: Seq<u8>)
    requires
        m.dom().finite(),
        flushed(m, block_size, bits_per_key) is Ok,
        flushed(m, block_size, bits_per_key)->Ok_0.to_bytes().len() <= usize::MAX,
        key.len() > 0,
    ensures
        ({
            let file = flushed(m, block_size, bits_per_key)->Ok_0.to_bytes();
            &&& table_in(file) is Ok
            &&& table_in(file)->Ok_0.lookup(key) == Ok::<Option<Version>, Error>(stored(m, key))
        }),
{
    let rows = listing(m);
    let d = flushed(m, block_size, bits_per_key)->Ok_0;
    law_listing_exists(m);
    law_draft_holds_rows(rows, m.dom().len(), block_size, bits_per_key);
    law_table_reads_back(d, key);
    law_find_in_listing(rows, m, key);
}

} // verus!
