//! The table in memory: which write a key shows, the order of the listing, and the
//! bytes that are counted.

use crate::bytes::lex_lt;
use crate::engine::{opened, State, TableSet};
use crate::memtable::{
    counted, entry_size, law_counter_is_exact_over_writes, law_size_is_sum_of_rows,
    lemma_total_size_insert, live_value, rows_size, size_after, total_size, Lookup, MemValue, PinnedValue,
};
use crate::types::{
    applied, applied_all, find_in, law_listing_exists, listing, lists, stored, supersedes,
    Contents, Row, SeqNum, Value, Version,
};
use vstd::prelude::*;

verus! {

// ---------------------------------------------------------------------------
// Which write a key shows
// ---------------------------------------------------------------------------

/// A table shows what it stores of a key, and nothing of a key that it does not
/// store.
pub proof fn law_stored(m: Contents, key: Seq<u8>)
    ensures
        m.contains_key(key) ==> stored(m, key) == Some(m[key]),
        !m.contains_key(key) ==> stored(m, key) is None,
        stored(Contents::empty(), key) is None,
{
}

/// A write with a number that is not smaller than the one stored replaces it; one
/// with a smaller number changes nothing.
pub proof fn law_newer_write_replaces(m: Contents, key: Seq<u8>, version: Version)
    ensures
        !m.contains_key(key) ==> applied(m, (key, version)) == m.insert(key, version),
        m.contains_key(key) && m[key].0 <= version.0 ==> applied(m, (key, version)) == m.insert(
            key,
            version,
        ),
        m.contains_key(key) && version.0 < m[key].0 ==> applied(m, (key, version)) == m,
        supersedes(m, (key, version)) <==> !m.contains_key(key) || m[key].0 <= version.0,
{
}

/// After any series of writes, a key shows a write of that key whose number no other
/// write of the key exceeds, and the last of those with that number; a key that was
/// not written shows nothing.
pub proof fn law_series_shows_newest(rows: Seq<Row>, key: Seq<u8>)
    ensures
        ({
            let m = applied_all(Contents::empty(), rows);
            &&& m.contains_key(key) <==> exists|i: int|
                0 <= i < rows.len() && (#[trigger] rows[i]).0 == key
            &&& m.contains_key(key) ==> exists|i: int| #[trigger] is_newest(rows, i, key, m[key])
        }),
    decreases rows.len(),
{
    let m = applied_all(Contents::empty(), rows);
    if rows.len() > 0 {
        let front = rows.drop_last();
        let last = rows[rows.len() - 1];
        let before = applied_all(Contents::empty(), front);
        assert(forall|i: int| 0 <= i < front.len() ==> #[trigger] front[i] == rows[i]);
        law_series_shows_newest(front, key);
        if last.0 == key {
            assert(rows[rows.len() - 1].0 == key);
            if !before.contains_key(key) || before[key].0 <= last.1.0 {
                assert forall|j: int| 0 <= j < rows.len() && (#[trigger] rows[j]).0 == key implies
                    rows[j].1.0 <= last.1.0 by {
                    if j < front.len() {
                        assert(front[j].0 == key);
                        let i = choose|i: int| #[trigger] is_newest(front, i, key, before[key]);
                        assert(front[j].1.0 <= before[key].0);
                    }
                }
                assert(is_newest(rows, rows.len() - 1, key, m[key]));
            } else {
                let i = choose|i: int| #[trigger] is_newest(front, i, key, before[key]);
                assert forall|j: int| 0 <= j < rows.len() && (#[trigger] rows[j]).0 == key implies
                    rows[j].1.0 <= m[key].0 && (i < j ==> rows[j].1.0 < m[key].0) by {
                    if j < front.len() {
                        assert(front[j].0 == key);
                    }
                }
                assert(is_newest(rows, i, key, m[key]));
            }
        } else {
            assert(m.contains_key(key) == before.contains_key(key));
            if exists|i: int| 0 <= i < rows.len() && (#[trigger] rows[i]).0 == key {
                let i = choose|i: int| 0 <= i < rows.len() && (#[trigger] rows[i]).0 == key;
                assert(front[i].0 == key);
            }
            if before.contains_key(key) {
                let i = choose|i: int| #[trigger] is_newest(front, i, key, before[key]);
                assert(rows[i].0 == key);
                assert forall|j: int| 0 <= j < rows.len() && (#[trigger] rows[j]).0 == key implies
                    rows[j].1.0 <= m[key].0 && (i < j ==> rows[j].1.0 < m[key].0) by {
                    assert(front[j].0 == key);
                }
                assert(is_newest(rows, i, key, m[key]));
            }
        }
    }
}

/// Write `i` is the newest of `key`: none has a larger number, and none after it has
/// the same.
pub open spec fn is_newest(rows: Seq<Row>, i: int, key: Seq<u8>, version: Version) -> bool {
    &&& 0 <= i < rows.len()
    &&& rows[i].0 == key
    &&& rows[i].1 == version
    &&& forall|j: int|
        0 <= j < rows.len() && (#[trigger] rows[j]).0 == key ==> rows[j].1.0 <= version.0 && (i < j
            ==> rows[j].1.0 < version.0)
}

/// A search in rows finds the last row of the key.
pub proof fn law_search_finds_last(rows: Seq<Row>, key: Seq<u8>)
    ensures
        match find_in(rows, key) {
            Some(version) => exists|i: int|
                0 <= i < rows.len() && #[trigger] rows[i] == (key, version) && (forall|j: int|
                    i < j < rows.len() ==> (#[trigger] rows[j]).0 != key),
            None => forall|i: int| 0 <= i < rows.len() ==> (#[trigger] rows[i]).0 != key,
        },
    decreases rows.len(),
{
    if rows.len() > 0 {
        let front = rows.drop_last();
        assert(forall|i: int| 0 <= i < front.len() ==> #[trigger] front[i] == rows[i]);
        law_search_finds_last(front, key);
        if rows.last().0 == key {
            assert(rows[rows.len() - 1] == (key, rows.last().1));
        } else if find_in(front, key) is Some {
            let version = find_in(front, key)->Some_0;
            let i = choose|i: int|
                0 <= i < front.len() && #[trigger] front[i] == (key, version) && (forall|j: int|
                    i < j < front.len() ==> (#[trigger] front[j]).0 != key);
            assert(rows[i] == (key, version));
            assert forall|j: int| i < j < rows.len() implies (#[trigger] rows[j]).0 != key by {
                if j < front.len() {
                    assert(front[j].0 != key);
                }
            }
        } else {
            assert forall|i: int| 0 <= i < rows.len() implies (#[trigger] rows[i]).0 != key by {
                if i < front.len() {
                    assert(front[i].0 != key);
                }
            }
        }
    }
}

/// A listing holds each key of the table once, with its version, in the order of the
/// keys, and no other key.
pub proof fn law_listing(rows: Seq<Row>, m: Contents)
    ensures
        lists(rows, m) <==> {
            &&& forall|i: int, j: int|
                0 <= i < j < rows.len() ==> lex_lt(#[trigger] rows[i].0, #[trigger] rows[j].0)
            &&& forall|i: int|
                0 <= i < rows.len() ==> m.contains_key(#[trigger] rows[i].0) && m[rows[i].0]
                    == rows[i].1
            &&& forall|key: Seq<u8>| #[trigger]
                m.contains_key(key) ==> exists|i: int|
                    0 <= i < rows.len() && #[trigger] rows[i].0 == key
        },
{
}

/// What a lookup gives as value: that of a put, nothing of a delete or of an unknown
/// key.
pub proof fn law_live_value(seq: u64, value: Seq<u8>)
    ensures
        live_value(Some((seq, Some(value)))) == Some(value),
        live_value(Some((seq, None))) is None,
        live_value(None) is None,
{
}

/// What the results of a lookup stand for.
pub proof fn law_lookup_in_memory(pinned: PinnedValue<'_>, seq: SeqNum)
    ensures
        Lookup::Alive(pinned)@ == Some(pinned@.1),
        Lookup::Deleted(seq)@ == Some((seq@, None::<Seq<u8>>)),
        Lookup::Missing@ is None,
{
}

/// What a payload of an entry stands for.
pub proof fn law_entry_payload(value: &Value)
    ensures
        MemValue::Put(value)@ == Some(value@),
        MemValue::Tombstone@ is None,
{
}

// ---------------------------------------------------------------------------
// The bytes that are counted
// ---------------------------------------------------------------------------

/// The bytes of rows: of each its key, its value if it has one, and 16.
pub open spec fn listed_bytes(rows: Seq<Row>) -> nat
    decreases rows.len(),
{
    if rows.len() == 0 {
        0
    } else {
        let row = rows.last();
        listed_bytes(rows.drop_last()) + row.0.len() + (match row.1.1 {
            Some(value) => value.len(),
            None => 0,
        }) + 16
    }
}

/// The bytes of the keys and values of rows.
pub open spec fn payload_total(rows: Seq<Row>) -> nat
    decreases rows.len(),
{
    if rows.len() == 0 {
        0
    } else {
        let row = rows.last();
        payload_total(rows.drop_last()) + row.0.len() + (match row.1.1 {
            Some(value) => value.len(),
            None => 0,
        })
    }
}

/// An entry counts its key, its value if it has one, and 16 bytes.
pub proof fn law_entry_counts(key: Seq<u8>, seq: u64, value: Seq<u8>)
    ensures
        entry_size(key, (seq, Some(value))) == key.len() + value.len() + 16,
        entry_size(key, (seq, None)) == key.len() + 16,
{
}

/// The true size of a table: nothing for an empty one; storing a value adds key,
/// value and 16 bytes, storing a delete adds key and 16 bytes, and what was stored of
/// the key before no longer counts.
pub proof fn law_size_of_table(m: Contents, key: Seq<u8>, seq: u64, value: Seq<u8>)
    requires
        m.dom().finite(),
    ensures
        total_size(Contents::empty()) == 0,
        !m.contains_key(key) ==> total_size(m.insert(key, (seq, Some(value)))) == total_size(m)
            + key.len() + value.len() + 16,
        !m.contains_key(key) ==> total_size(m.insert(key, (seq, None))) == total_size(m)
            + key.len() + 16,
        m.contains_key(key) && m[key].1 is Some ==> total_size(m.insert(key, (seq, Some(value))))
            + m[key].1->Some_0.len() == total_size(m) + value.len(),
        m.contains_key(key) && m[key].1 is None ==> total_size(m.insert(key, (seq, Some(value))))
            == total_size(m) + value.len(),
        m.contains_key(key) && m[key].1 is Some ==> total_size(m.insert(key, (seq, None)))
            + m[key].1->Some_0.len() == total_size(m),
        m.contains_key(key) && m[key].1 is None ==> total_size(m.insert(key, (seq, None)))
            == total_size(m),
{
    lemma_total_size_insert(m, key, (seq, Some(value)));
    lemma_total_size_insert(m, key, (seq, None));
    assert(Contents::empty().dom().len() == 0);
}

/// The true size of a table is the sum over its listing of key, value and 16 bytes.
pub proof fn law_size_is_listed_bytes(m: Contents)
    requires
        m.dom().finite(),
    ensures
        total_size(m) == listed_bytes(listing(m)),
{
    law_listing_exists(m);
    law_size_is_sum_of_rows(listing(m), m);
    lemma_listed_bytes(listing(m));
}

proof fn lemma_listed_bytes(rows: Seq<Row>)
    ensures
        rows_size(rows) == listed_bytes(rows),
        payload_total(rows) <= listed_bytes(rows),
    decreases rows.len(),
{
    if rows.len() > 0 {
        lemma_listed_bytes(rows.drop_last());
    }
}

/// A write moves the counter by the bytes of the new entry less those of the entry
/// before, as long as all fits a machine word.
pub proof fn law_counter_moves(
    counter: int,
    before: Option<Version>,
    key: Seq<u8>,
    version: Version,
)
    requires
        key.len() + 16 + stored_len(version) <= usize::MAX,
        before matches Some(old_version) ==> key.len() + 16 + stored_len(old_version) <= counter,
        0 <= counter,
        counter + key.len() + 16 + stored_len(version) <= usize::MAX,
    ensures
        counted(counter, before, (key, version)) == match before {
            Some(old_version) => counter - stored_len(old_version) + stored_len(version),
            None => counter + key.len() + 16 + stored_len(version),
        },
{
}

/// The bytes of the value of a version.
pub open spec fn stored_len(version: Version) -> int {
    match version.1 {
        Some(value) => value.len() as int,
        None => 0,
    }
}

proof fn lemma_size_at_most_written(rows: Seq<Row>)
    ensures
        applied_all(Contents::empty(), rows).dom().finite(),
        total_size(applied_all(Contents::empty(), rows)) <= listed_bytes(rows),
    decreases rows.len(),
{
    if rows.len() > 0 {
        lemma_size_at_most_written(rows.drop_last());
        let before = applied_all(Contents::empty(), rows.drop_last());
        lemma_total_size_insert(before, rows.last().0, rows.last().1);
    } else {
        assert(Contents::empty().dom().len() == 0);
    }
}

proof fn lemma_listed_bytes_prefix(rows: Seq<Row>, i: int)
    requires
        0 <= i <= rows.len(),
    ensures
        listed_bytes(rows.take(i)) <= listed_bytes(rows),
    decreases rows.len(),
{
    if i == rows.len() {
        assert(rows.take(i) =~= rows);
    } else {
        lemma_listed_bytes_prefix(rows.drop_last(), i);
        assert(rows.drop_last().take(i) =~= rows.take(i));
    }
}

/// After any series of writes whose bytes fit a machine word, the counter shows the
/// sum over the listing of key, value and 16 bytes.
pub proof fn law_counter_over_writes(rows: Seq<Row>)
    requires
        listed_bytes(rows) <= usize::MAX,
    ensures
        size_after(rows) == listed_bytes(listing(applied_all(Contents::empty(), rows))),
{
    assert forall|i: int| 0 <= i <= rows.len() implies total_size(
        applied_all(Contents::empty(), #[trigger] rows.take(i)),
    ) <= usize::MAX by {
        lemma_size_at_most_written(rows.take(i));
        lemma_listed_bytes_prefix(rows, i);
    }
    law_counter_is_exact_over_writes(rows);
    law_size_is_listed_bytes(applied_all(Contents::empty(), rows));
}

/// An engine that opens from a log counts the bytes of what it holds in memory: key,
/// value and 16 bytes of each entry. Once the keys and values in memory reach the
/// capacity, it asks for a flush.
pub proof fn law_opened_counts_bytes(set: TableSet, rows: Seq<Row>, log: u64, capacity: usize)
    requires
        opened(set, rows, log, capacity) is Ok,
        listed_bytes(rows) <= usize::MAX,
    ensures
        ({
            let state = opened(set, rows, log, capacity)->Ok_0;
            &&& state.capacity == capacity
            &&& state.mem_size == listed_bytes(listing(state.mem))
            &&& payload_total(listing(state.mem)) >= capacity ==> state.mem_size >= state.capacity
        }),
{
    law_counter_over_writes(rows);
    lemma_listed_bytes(listing(applied_all(Contents::empty(), rows)));
}

/// A write keeps the count of the bytes in memory: the sum over the listing of key,
/// value and 16 bytes, as long as it fits a machine word. Once the keys and values
/// reach the capacity, the engine asks for a flush.
pub proof fn law_write_counts_bytes(
    state: State,
    key: Seq<u8>,
    value: Option<Seq<u8>>,
    framed: int,
)
    requires
        state.valid(),
        state.mem_size == listed_bytes(listing(state.mem)),
        state.mem_size <= usize::MAX,
        listed_bytes(listing(state.mem.insert(key, (state.next_seq, value)))) <= usize::MAX,
    ensures
        ({
            let after = state.after_write(key, value, framed);
            &&& after.capacity == state.capacity
            &&& after.mem_size == listed_bytes(listing(after.mem))
            &&& payload_total(listing(after.mem)) >= after.capacity ==> after.mem_size
                >= after.capacity
        }),
{
    let row = state.next_row(key, value);
    let after = state.after_write(key, value, framed);
    lemma_total_size_insert(state.mem, key, row.1);
    law_size_is_listed_bytes(state.mem);
    law_size_is_listed_bytes(after.mem);
    lemma_listed_bytes(listing(after.mem));
    crate::memtable::law_counter_is_exact(state.mem, row);
}

} // verus!
