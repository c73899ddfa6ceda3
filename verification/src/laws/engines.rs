//! The engine: what a lookup finds, what a write and a flush change, and what an
//! opening restores.

use crate::bytes::u64_at;
use crate::engine::{
    file_contents, find_newest, opened, opens_as, prepares, reader_tables, table_set, Engine,
    EngineLookup, EngineValue, Pending, State, TableSet,
};
use crate::error::Error;
use crate::memtable::{counted, size_after};
use crate::sstable::reader::{table_in, SstLookup, SstReader, Table};
use crate::sstable::writer::highest_seq;
use crate::types::{applied_all, stored, Contents, Row, SeqNum, Version};
use crate::wal::{frame, replayed, Wal};
use vstd::prelude::*;

verus! {

// ---------------------------------------------------------------------------
// Lookups
// ---------------------------------------------------------------------------

/// Where no table knows a key, nothing is found; in particular where there are no
/// tables.
pub proof fn law_unknown_key(tables: Seq<Table>, key: Seq<u8>)
    requires
        forall|i: int|
            0 <= i < tables.len() ==> (#[trigger] tables[i]).lookup(key) == Ok::<
                Option<Version>,
                Error,
            >(None),
    ensures
        find_newest(tables, key) == Ok::<Option<Version>, Error>(None),
        find_newest(seq![], key) == Ok::<Option<Version>, Error>(None),
    decreases tables.len(),
{
    if tables.len() > 0 {
        let front = tables.drop_last();
        assert(forall|i: int| 0 <= i < front.len() ==> #[trigger] front[i] == tables[i]);
        assert(tables[tables.len() - 1].lookup(key) == Ok::<Option<Version>, Error>(None));
        law_unknown_key(front, key);
    }
}

/// The newest table that knows a key, or that cannot be read, decides; older ones do
/// not count.
pub proof fn law_newest_table_decides(tables: Seq<Table>, p: int, key: Seq<u8>)
    requires
        0 <= p < tables.len(),
        tables[p].lookup(key) != Ok::<Option<Version>, Error>(None),
        forall|i: int|
            p < i < tables.len() ==> (#[trigger] tables[i]).lookup(key) == Ok::<
                Option<Version>,
                Error,
            >(None),
    ensures
        find_newest(tables, key) == tables[p].lookup(key),
    decreases tables.len(),
{
    let front = tables.drop_last();
    assert(forall|i: int| 0 <= i < front.len() ==> #[trigger] front[i] == tables[i]);
    if p < tables.len() - 1 {
        assert(tables[tables.len() - 1].lookup(key) == Ok::<Option<Version>, Error>(None));
        law_newest_table_decides(front, p, key);
    }
}

/// Nothing is found only where no table knows the key.
pub proof fn law_nothing_found_means_unknown(tables: Seq<Table>, key: Seq<u8>)
    requires
        find_newest(tables, key) == Ok::<Option<Version>, Error>(None),
    ensures
        forall|i: int|
            0 <= i < tables.len() ==> (#[trigger] tables[i]).lookup(key) == Ok::<
                Option<Version>,
                Error,
            >(None),
    decreases tables.len(),
{
    if tables.len() > 0 {
        let front = tables.drop_last();
        law_nothing_found_means_unknown(front, key);
        assert forall|i: int| 0 <= i < tables.len() implies (#[trigger] tables[i]).lookup(key)
            == Ok::<Option<Version>, Error>(None) by {
            if i < front.len() {
                assert(front[i] == tables[i]);
            }
        }
    }
}

/// A lookup refuses the empty key, takes what is in memory, and asks the tables only
/// for what is not; a key that neither memory nor a table knows is not found.
pub proof fn law_lookup(state: State, key: Seq<u8>)
    ensures
        key.len() == 0 ==> state.lookup(key) == Err::<Option<Version>, Error>(Error::EmptyKey),
        key.len() > 0 && state.mem.contains_key(key) ==> state.lookup(key) == Ok::<
            Option<Version>,
            Error,
        >(Some(state.mem[key])),
        key.len() > 0 && !state.mem.contains_key(key) ==> state.lookup(key) == find_newest(
            state.tables,
            key,
        ),
        key.len() > 0 && !state.mem.contains_key(key) && (forall|i: int|
            0 <= i < state.tables.len() ==> (#[trigger] state.tables[i]).lookup(key) == Ok::<
                Option<Version>,
                Error,
            >(None)) ==> state.lookup(key) == Ok::<Option<Version>, Error>(None),
{
    if key.len() > 0 && !state.mem.contains_key(key) && (forall|i: int|
        0 <= i < state.tables.len() ==> (#[trigger] state.tables[i]).lookup(key) == Ok::<
            Option<Version>,
            Error,
        >(None)) {
        law_unknown_key(state.tables, key);
    }
}

/// An engine that opens from no files and an empty log knows no key, and numbers its
/// first write 1 and its first table file 1.
pub proof fn law_new_engine_knows_nothing(log: u64, capacity: usize, key: Seq<u8>)
    ensures
        table_set(seq![]) is Ok,
        ({
            let r = opened(table_set(seq![])->Ok_0, seq![], log, capacity);
            &&& r is Ok
            &&& r->Ok_0.next_seq == 1
            &&& r->Ok_0.next_sst == 1
            &&& r->Ok_0.tables.len() == 0
            &&& r->Ok_0.mem == Contents::empty()
            &&& r->Ok_0.mem_size == 0
            &&& key.len() > 0 ==> r->Ok_0.lookup(key) == Ok::<Option<Version>, Error>(None)
        }),
{
    let none: Seq<(u64, Seq<u8>)> = seq![];
    let state = opened(table_set(none)->Ok_0, seq![], log, capacity)->Ok_0;
    assert(state.tables =~= Seq::<Table>::empty());
    law_unknown_key(state.tables, key);
}

/// What the results of lookups stand for.
pub proof fn law_lookup_results(seq: SeqNum, bytes: &[u8])
    ensures
        (EngineValue::Sst { seq, bytes })@ == (seq@, Some(bytes@)),
        EngineLookup::Alive(EngineValue::Sst { seq, bytes })@ == Some((seq@, Some(bytes@))),
        EngineLookup::Deleted(seq)@ == Some((seq@, None::<Seq<u8>>)),
        EngineLookup::Missing@ is None,
        (SstLookup::Alive { seq, value: bytes })@ == Some((seq@, Some(bytes@))),
        SstLookup::Deleted(seq)@ == Some((seq@, None::<Seq<u8>>)),
        SstLookup::Missing@ is None,
{
}

// ---------------------------------------------------------------------------
// Writes and flushes
// ---------------------------------------------------------------------------

/// What a write changes: memory shows it under the next number, the counter moves, the
/// next number is one more until the largest, the log is longer by the frame; nothing
/// else changes.
pub proof fn law_what_a_write_changes(
    state: State,
    key: Seq<u8>,
    value: Option<Seq<u8>>,
    framed: int,
)
    ensures
        ({
            let after = state.after_write(key, value, framed);
            &&& after.mem == state.mem.insert(key, (state.next_seq, value))
            &&& after.mem_size == counted(
                state.mem_size,
                stored(state.mem, key),
                (key, (state.next_seq, value)),
            )
            &&& state.next_seq < u64::MAX ==> after.next_seq == state.next_seq + 1
            &&& state.next_seq == u64::MAX ==> after.next_seq == u64::MAX
            &&& state.log is Some && 0 <= state.log->Some_0 + framed <= u64::MAX ==> after.log
                is Some && after.log->Some_0 == state.log->Some_0 + framed
            &&& after.tables == state.tables
            &&& after.next_sst == state.next_sst
            &&& after.capacity == state.capacity
        }),
{
}

/// A write that is accepted is handed out under the next number, with its key and
/// value, as its frame at the end of the log.
pub proof fn law_what_a_write_hands_out(
    state: State,
    key: Seq<u8>,
    value: Option<Seq<u8>>,
    pending: Pending,
)
    requires
        prepares(state, key, value, Ok(pending)),
    ensures
        pending.seq@ == state.next_seq,
        pending.op.spec_key() == key,
        pending.op.spec_value() == value,
        state.log is Some,
        pending.write.offset == state.log->Some_0,
        pending.write.bytes@ == frame((key, (state.next_seq, value))),
{
}

/// What a flush changes: memory is empty, its table is the newest, the next table file
/// has the next number until the largest, the log is closed; nothing else changes.
pub proof fn law_what_a_flush_changes(state: State, table: Table)
    ensures
        ({
            let after = state.after_flush(table);
            &&& after.mem == Contents::empty()
            &&& after.mem_size == 0
            &&& after.tables == state.tables.push(table)
            &&& state.next_sst < u64::MAX ==> after.next_sst == state.next_sst + 1
            &&& state.next_sst == u64::MAX ==> after.next_sst == u64::MAX
            &&& after.log is None
            &&& after.next_seq == state.next_seq
            &&& after.capacity == state.capacity
        }),
{
}

/// The state after a series of writes, each a key with its value or with nothing for a
/// delete.
pub open spec fn after_run(state: State, writes: Seq<(Seq<u8>, Option<Seq<u8>>)>) -> State
    decreases writes.len(),
{
    if writes.len() == 0 {
        state
    } else {
        let before = after_run(state, writes.drop_last());
        let (key, value) = writes.last();
        before.after_write(key, value, 4096)
    }
}

/// After any series of writes, each key shows its last write, a value as that value and
/// a delete as a delete; a key that was not written is answered as before the series.
pub proof fn law_run_shows_last_writes(
    state: State,
    writes: Seq<(Seq<u8>, Option<Seq<u8>>)>,
    key: Seq<u8>,
    i: int,
)
    requires
        key.len() > 0,
        0 <= i <= writes.len(),
        i < writes.len() ==> writes[i].0 == key,
        forall|j: int| i < j < writes.len() ==> (#[trigger] writes[j]).0 != key,
        i == writes.len() ==> forall|j: int|
            0 <= j < writes.len() ==> (#[trigger] writes[j]).0 != key,
    ensures
        i < writes.len() ==> after_run(state, writes).lookup(key) is Ok && after_run(
            state,
            writes,
        ).lookup(key)->Ok_0 is Some && after_run(state, writes).lookup(key)->Ok_0->Some_0.1
            == writes[i].1,
        i == writes.len() ==> after_run(state, writes).lookup(key) == state.lookup(key),
    decreases writes.len(),
{
    if writes.len() > 0 {
        let front = writes.drop_last();
        let before = after_run(state, front);
        let last = writes[writes.len() - 1];
        assert(forall|j: int| 0 <= j < front.len() ==> #[trigger] front[j] == writes[j]);
        if i == writes.len() - 1 {
            crate::engine::law_write_then_read(before, key, last.1, 4096);
        } else {
            assert(last.0 != key);
            crate::engine::law_write_is_local(before, last.0, last.1, 4096, key);
            let k = if i == writes.len() {
                front.len() as int
            } else {
                i
            };
            law_run_shows_last_writes(state, front, key, k);
        }
    }
}

// ---------------------------------------------------------------------------
// Opening
// ---------------------------------------------------------------------------

/// The tables of a directory: one for each file, in order; their numbers go on behind
/// the largest of the files, and the numbers of writes behind the largest of the
/// footers. A file that is no table is an error.
pub proof fn law_tables_of_directory(files: Seq<(u64, Seq<u8>)>)
    ensures
        table_set(files) is Ok <==> forall|i: int|
            0 <= i < files.len() ==> table_in(#[trigger] files[i].1) is Ok,
        table_set(files) is Ok ==> {
            let set = table_set(files)->Ok_0;
            &&& set.tables.len() == files.len()
            &&& forall|i: int|
                #![trigger files[i]]
                #![trigger set.tables[i]]
                0 <= i < files.len() ==> {
                    &&& table_in(files[i].1) == Ok::<Table, Error>(set.tables[i])
                    &&& u64_at(crate::sstable::footer_part(files[i].1), 64) <= set.max_seq
                    &&& files[i].0 < u64::MAX ==> files[i].0 < set.next_sst
                    &&& files[i].0 == u64::MAX ==> set.next_sst == u64::MAX
                }
            &&& set.next_sst >= 1
            &&& set.max_seq == 0 || exists|i: int|
                0 <= i < files.len() && u64_at(
                    crate::sstable::footer_part(#[trigger] files[i].1),
                    64,
                ) == set.max_seq
            &&& set.next_sst == 1 || exists|i: int|
                0 <= i < files.len() && (#[trigger] files[i].0 + 1 == set.next_sst || files[i].0
                    == u64::MAX)
        },
    decreases files.len(),
{
    if files.len() > 0 {
        let front = files.drop_last();
        let last = files.len() - 1;
        law_tables_of_directory(front);
        assert(forall|i: int| 0 <= i < front.len() ==> #[trigger] front[i] == files[i]);
        if table_set(files) is Ok {
            let before = table_set(front)->Ok_0;
            let set = table_set(files)->Ok_0;
            assert forall|i: int| 0 <= i < files.len() implies table_in(#[trigger] files[i].1)
                is Ok by {
                if i < last {
                    assert(table_in(front[i].1) is Ok);
                }
            }
            assert forall|i: int|
                #![trigger files[i]]
                #![trigger set.tables[i]]
                0 <= i < files.len() implies {
                &&& table_in(files[i].1) == Ok::<Table, Error>(set.tables[i])
                &&& u64_at(crate::sstable::footer_part(files[i].1), 64) <= set.max_seq
                &&& files[i].0 < u64::MAX ==> files[i].0 < set.next_sst
                &&& files[i].0 == u64::MAX ==> set.next_sst == u64::MAX
            } by {
                if i < last {
                    assert(front[i] == files[i]);
                    assert(before.tables[i] == set.tables[i]);
                }
            }
            if set.max_seq != 0 {
                if set.max_seq == u64_at(crate::sstable::footer_part(files[last].1), 64) {
                } else {
                    let i = choose|i: int|
                        0 <= i < front.len() && u64_at(
                            crate::sstable::footer_part(#[trigger] front[i].1),
                            64,
                        ) == before.max_seq;
                    assert(files[i] == front[i]);
                }
            }
            if set.next_sst != 1 {
                if set.next_sst != before.next_sst {
                    assert(files[last].0 + 1 == set.next_sst || files[last].0 == u64::MAX);
                } else {
                    let i = choose|i: int|
                        0 <= i < front.len() && (#[trigger] front[i].0 + 1 == before.next_sst
                            || front[i].0 == u64::MAX);
                    assert(files[i] == front[i]);
                }
            }
        } else if forall|i: int| 0 <= i < files.len() ==> table_in(#[trigger] files[i].1) is Ok {
            assert forall|i: int| 0 <= i < front.len() implies table_in(#[trigger] front[i].1)
                is Ok by {
                assert(table_in(files[i].1) is Ok);
            }
            assert(table_in(files[last].1) is Ok);
        }
    }
}

/// The first file that is no table decides the error.
pub proof fn law_first_bad_file_decides(files: Seq<(u64, Seq<u8>)>, p: int)
    requires
        0 <= p < files.len(),
        table_in(files[p].1) is Err,
        forall|i: int| 0 <= i < p ==> table_in(#[trigger] files[i].1) is Ok,
    ensures
        table_set(files) is Err,
        table_set(files)->Err_0 == table_in(files[p].1)->Err_0,
    decreases files.len(),
{
    let front = files.drop_last();
    assert(forall|i: int| 0 <= i < front.len() ==> #[trigger] front[i] == files[i]);
    if p < files.len() - 1 {
        law_first_bad_file_decides(front, p);
    } else {
        law_tables_of_directory(front);
        assert forall|i: int| 0 <= i < front.len() implies table_in(#[trigger] front[i].1)
            is Ok by {
            assert(table_in(files[i].1) is Ok);
        }
    }
}

/// An engine opens with the writes of the log in memory, over the tables that are
/// there; its next write has the number behind the largest of both. It does not open
/// only where that number is used up.
pub proof fn law_opened_state(set: TableSet, rows: Seq<Row>, log: u64, capacity: usize)
    ensures
        ({
            let r = opened(set, rows, log, capacity);
            &&& r is Err <==> set.max_seq == u64::MAX || highest_seq(rows) == u64::MAX
            &&& r is Err ==> r->Err_0 == Error::SequenceOverflow
            &&& r is Ok ==> {
                let state = r->Ok_0;
                &&& state.mem == applied_all(Contents::empty(), rows)
                &&& state.mem_size == size_after(rows)
                &&& state.capacity == capacity
                &&& state.tables == set.tables
                &&& state.next_sst == set.next_sst
                &&& state.next_seq > set.max_seq
                &&& state.next_seq > highest_seq(rows)
                &&& state.next_seq == set.max_seq + 1 || state.next_seq == highest_seq(rows) + 1
                &&& state.log == Some(log)
            }
        }),
{
}

/// An engine opens from the writes that the replay of its log gives, or with the
/// replay's error.
pub proof fn law_opening_replays(
    set: TableSet,
    wal: Wal,
    image: Seq<u8>,
    capacity: usize,
    r: Result<Engine<'_>, Error>,
)
    requires
        opens_as(set, wal, image, capacity, r),
    ensures
        match replayed(image, wal.spec_offset() as int) {
            Err(e) => r is Err && r->Err_0 == e,
            Ok(rows) => match opened(set, rows, wal.spec_offset(), capacity) {
                Err(e) => r is Err && r->Err_0 == e,
                Ok(state) => r is Ok && r->Ok_0@ == state && r->Ok_0.wf(),
            },
        },
{
}

/// Files are modelled by their numbers and bytes, open tables by what they hold, in
/// order.
pub proof fn law_files_in_order(files: Seq<(u64, &[u8])>, i: int)
    requires
        0 <= i < files.len(),
    ensures
        file_contents(files).len() == files.len(),
        file_contents(files)[i] == (files[i].0, files[i].1@),
{
}

/// Open tables are modelled one by one, in order.
pub proof fn law_readers_in_order(readers: Seq<SstReader<'_>>, i: int)
    requires
        0 <= i < readers.len(),
    ensures
        reader_tables(readers).len() == readers.len(),
        reader_tables(readers)[i] == readers[i]@,
{
}

} // verus!
