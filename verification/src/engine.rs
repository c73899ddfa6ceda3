//! The engine: write-ahead log, then the table in memory, then tables on disk.
//!
//! A write is logged first. [`Engine::put`] and [`Engine::delete`] hand out the
//! frame; once it is on disk, [`Engine::apply`] shows the write to the table in
//! memory. If the frame cannot be written, nothing has changed. If the process
//! dies in between, the replay of the log restores the write.
//!
//! A lookup asks the table in memory first. A value or a tombstone there ends
//! it: a tombstone must not let an older value through. Then it asks the tables
//! on disk from the newest to the oldest, and the first that knows the key wins.
//!
//! A flush is explicit: [`Engine::flush`] hands out the bytes of a new table;
//! once they are a file, [`Engine::install`] opens it, empties the table in
//! memory and closes the log, and [`Engine::rotate_wal`] starts a new one.

use crate::bytes::{capped, u64_at};
use crate::error::Error;
use crate::files::{sst_file_name, table_name};
use crate::laws::engines::{law_lookup, law_nothing_found_means_unknown};
use crate::laws::filter::law_filter_exists_within_limit;
use crate::memtable::{counted, live_value, size_after, Lookup, MemTable, PinnedValue};
use crate::sstable::laws::{law_flush_then_read, law_footer_says};
use crate::sstable::reader::{table_in, SstLookup, SstReader, Table};
use crate::sstable::writer::{
    flush_memtable, flushed, highest_seq, law_draft_holds_rows, law_small_rows_are_written,
    rows_of, SstImage,
};
use crate::sstable::{
    footer_part, lemma_row_bytes_len, row_bytes, SstFooter, BLOCK_HEADER_SIZE, DEFAULT_BLOCK_SIZE,
};
use crate::types::{
    applied, applied_all, law_listing_exists, listing, stored, supersedes, Contents, Key, Row,
    SeqNum, Value, Version,
};
use crate::wal::{
    frame, frame_len, law_append_after_recovery, law_append_extends_log, law_frame_len,
    law_log_ends_at_page, law_log_ends_with_file, law_logged_keys_are_not_empty,
    law_replay_after_reopen, law_torn_append, log_end, log_from, log_image, loggable, record_rows,
    replayed, written, Wal, WalOp, WalWrite, MAX_RECORD_BYTES, WAL_ALIGN,
};
use vstd::prelude::*;

verus! {

/// Default capacity of the table in memory, in bytes.
pub const DEFAULT_MEM_CAPACITY: usize = 65536;

/// Options of an engine.
#[derive(Clone, Copy, Debug, Eq, PartialEq)]
pub struct EngineOptions {
    /// The size from which the table in memory asks for a flush.
    pub mem_capacity_bytes: usize,
}

impl Default for EngineOptions {
    /// 64 KiB.
    fn default() -> (r: Self)
        ensures
            r.mem_capacity_bytes == DEFAULT_MEM_CAPACITY,
    {
        EngineOptions { mem_capacity_bytes: DEFAULT_MEM_CAPACITY }
    }
}

// ---------------------------------------------------------------------------
// Lookups
// ---------------------------------------------------------------------------

/// The bytes of a value: in memory, or in the file of a table.
pub enum EngineValue<'a> {
    /// In the table in memory.
    Mem(PinnedValue<'a>),
    /// In the file of a table.
    Sst {
        /// Number of the write.
        seq: SeqNum,
        /// The bytes of the value.
        bytes: &'a [u8],
    },
}

impl<'a> View for EngineValue<'a> {
    type V = Version;

    open spec fn view(&self) -> Version {
        match self {
            EngineValue::Mem(pinned) => pinned@.1,
            EngineValue::Sst { seq, bytes } => (seq@, Some(bytes@)),
        }
    }
}

impl<'a> EngineValue<'a> {
    /// The bytes.
    pub fn as_bytes(&self) -> (r: &[u8])
        ensures
            self@.1 == Some(r@),
    {
        match self {
            EngineValue::Mem(pinned) => pinned.value().as_bytes(),
            EngineValue::Sst { seq: _, bytes } => bytes,
        }
    }

    /// The number of the write.
    pub fn seq(&self) -> (r: SeqNum)
        ensures
            r@ == self@.0,
    {
        match self {
            EngineValue::Mem(pinned) => pinned.seq(),
            EngineValue::Sst { seq, bytes: _ } => *seq,
        }
    }
}

/// What the engine knows of a key.
pub enum EngineLookup<'a> {
    /// A value.
    Alive(EngineValue<'a>),
    /// The key was deleted.
    Deleted(SeqNum),
    /// The key was never written.
    Missing,
}

impl<'a> View for EngineLookup<'a> {
    type V = Option<Version>;

    open spec fn view(&self) -> Option<Version> {
        match self {
            EngineLookup::Alive(value) => Some(value@),
            EngineLookup::Deleted(seq) => Some((seq@, None)),
            EngineLookup::Missing => None,
        }
    }
}

impl<'a> EngineLookup<'a> {
    /// `true` iff neither the table in memory nor a table on disk knows the key.
    pub fn is_missing(&self) -> (r: bool)
        ensures
            r == (self is Missing),
            r == (self@ is None),
    {
        match self {
            EngineLookup::Missing => true,
            _ => false,
        }
    }

    /// `true` iff the key was deleted.
    pub fn is_deleted(&self) -> (r: bool)
        ensures
            r == (self is Deleted),
            r == (self@ is Some && live_value(self@) is None),
    {
        match self {
            EngineLookup::Alive(value) => {
                proof {
                    if let EngineValue::Mem(pinned) = value {
                        use_type_invariant(pinned);
                    }
                }
                false
            },
            EngineLookup::Deleted(_) => true,
            EngineLookup::Missing => false,
        }
    }

    /// The bytes of the value, if there is one.
    pub fn as_bytes(&self) -> (r: Option<&[u8]>)
        ensures
            match r {
                Some(bytes) => self is Alive && live_value(self@) == Some(bytes@),
                None => !(self is Alive),
            },
    {
        match self {
            EngineLookup::Alive(value) => Some(value.as_bytes()),
            _ => None,
        }
    }
}

// ---------------------------------------------------------------------------
// The state of an engine
// ---------------------------------------------------------------------------

/// The state of an engine.
#[verifier::ext_equal]
pub struct State {
    /// The table in memory.
    pub mem: Contents,
    /// Its size counter.
    pub mem_size: int,
    /// The size from which it asks for a flush.
    pub capacity: usize,
    /// The tables on disk, oldest first.
    pub tables: Seq<Table>,
    /// The number of the next table file.
    pub next_sst: u64,
    /// The number of the next write.
    pub next_seq: u64,
    /// The end of the log; `None` while the log is being rotated.
    pub log: Option<u64>,
}

/// What the newest of `tables` that knows `key` says of it.
pub open spec fn find_newest(tables: Seq<Table>, key: Seq<u8>) -> Result<Option<Version>, Error>
    decreases tables.len(),
{
    if tables.len() == 0 {
        Ok(None)
    } else {
        match tables.last().lookup(key) {
            Err(e) => Err(e),
            Ok(Some(version)) => Ok(Some(version)),
            Ok(None) => find_newest(tables.drop_last(), key),
        }
    }
}

impl State {
    /// What the engine knows of `key`.
    pub open spec fn lookup(self, key: Seq<u8>) -> Result<Option<Version>, Error> {
        if key.len() == 0 {
            Err(Error::EmptyKey)
        } else if self.mem.contains_key(key) {
            Ok(Some(self.mem[key]))
        } else {
            find_newest(self.tables, key)
        }
    }

    /// No key in memory is empty, and every write in memory has a number before the
    /// next, until the numbers are used up.
    pub open spec fn valid(self) -> bool {
        &&& self.mem.dom().finite()
        &&& forall|key: Seq<u8>| #[trigger]
            self.mem.contains_key(key) ==> key.len() > 0 && self.is_past(self.mem[key].0)
    }

    /// `seq` is the number of an earlier write: it is before the next number, or the
    /// numbers are used up.
    pub open spec fn is_past(self, seq: u64) -> bool {
        seq < self.next_seq || self.next_seq == u64::MAX
    }

    /// Whatever a lookup finds, in memory or in a table, has the number of an
    /// earlier write.
    pub open spec fn numbers_past(self) -> bool {
        forall|key: Seq<u8>| #[trigger]
            self.lookup(key) matches Ok(Some(version)) ==> self.is_past(version.0)
    }

    /// The write with the next number that stores `value` (or deletes) `key`.
    pub open spec fn next_row(self, key: Seq<u8>, value: Option<Seq<u8>>) -> Row {
        (key, (self.next_seq, value))
    }

    /// The state after the write of `value` to `key` was logged, with a frame of
    /// `framed` bytes, and applied.
    pub open spec fn after_write(self, key: Seq<u8>, value: Option<Seq<u8>>, framed: int) -> State {
        let row = self.next_row(key, value);
        State {
            mem: self.mem.insert(key, row.1),
            mem_size: counted(self.mem_size, stored(self.mem, key), row),
            next_seq: if self.next_seq == u64::MAX {
                self.next_seq
            } else {
                (self.next_seq + 1) as u64
            },
            log: match self.log {
                Some(end) => Some((end + framed) as u64),
                None => None,
            },
            ..self
        }
    }

    /// The state after the table in memory became the newest table on disk; the
    /// log is still to be rotated.
    pub open spec fn after_flush(self, table: Table) -> State {
        State {
            mem: Contents::empty(),
            mem_size: 0,
            tables: self.tables.push(table),
            next_sst: if self.next_sst == u64::MAX {
                self.next_sst
            } else {
                (self.next_sst + 1) as u64
            },
            log: None,
            ..self
        }
    }
}

// ---------------------------------------------------------------------------
// Opening
// ---------------------------------------------------------------------------

/// The tables on disk, as they are found when an engine opens.
#[verifier::ext_equal]
pub struct TableSet {
    /// The tables, in the order of the files.
    pub tables: Seq<Table>,
    /// The largest number of a write in them.
    pub max_seq: u64,
    /// The number of the next table file.
    pub next_sst: u64,
}

/// The tables in `files`, each with its number.
pub open spec fn table_set(files: Seq<(u64, Seq<u8>)>) -> Result<TableSet, Error>
    decreases files.len(),
{
    if files.len() == 0 {
        Ok(TableSet { tables: seq![], max_seq: 0, next_sst: 1 })
    } else {
        let (id, file) = files.last();
        match table_set(files.drop_last()) {
            Err(e) => Err(e),
            Ok(before) => match table_in(file) {
                Err(e) => Err(e),
                Ok(table) => {
                    let seq = u64_at(footer_part(file), 64);
                    let after = if id == u64::MAX {
                        id
                    } else {
                        (id + 1) as u64
                    };
                    Ok(
                        TableSet {
                            tables: before.tables.push(table),
                            max_seq: if seq > before.max_seq {
                                seq
                            } else {
                                before.max_seq
                            },
                            next_sst: if after > before.next_sst {
                                after
                            } else {
                                before.next_sst
                            },
                        },
                    )
                },
            },
        }
    }
}

/// Files as they are modelled: number and bytes.
pub open spec fn file_contents(files: Seq<(u64, &[u8])>) -> Seq<(u64, Seq<u8>)> {
    Seq::new(files.len(), |i: int| (files[i].0, files[i].1@))
}

/// The tables of `readers`.
pub open spec fn reader_tables(readers: Seq<SstReader<'_>>) -> Seq<Table> {
    Seq::new(readers.len(), |i: int| readers[i]@)
}

/// The open tables of a data directory.
pub struct Tables<'a> {
    readers: Vec<SstReader<'a>>,
    max_seq: u64,
    next_sst: u64,
}

impl<'a> View for Tables<'a> {
    type V = TableSet;

    closed spec fn view(&self) -> TableSet {
        TableSet {
            tables: reader_tables(self.readers@),
            max_seq: self.max_seq,
            next_sst: self.next_sst,
        }
    }
}

impl<'a> Tables<'a> {
    /// Every reader is well-formed.
    pub closed spec fn wf(self) -> bool {
        forall|i: int| 0 <= i < self.readers@.len() ==> (#[trigger] self.readers@[i]).wf()
    }

    /// Opens the tables in `files`, given with their numbers, oldest first.
    #[verifier::rlimit(40)]
    pub fn load(files: &Vec<(u64, &'a [u8])>) -> (r: Result<Self, Error>)
        ensures
            match r {
                Ok(tables) => tables.wf() && table_set(file_contents(files@)) == Ok::<
                    TableSet,
                    Error,
                >(tables@),
                Err(e) => table_set(file_contents(files@)) == Err::<TableSet, Error>(e),
            },
    {
        let ghost all = file_contents(files@);
        let mut tables = Tables { readers: Vec::new(), max_seq: 0, next_sst: 1 };
        let mut i: usize = 0;
        proof {
            assert(all.take(0) =~= seq![]);
            assert(reader_tables(tables.readers@) =~= seq![]);
        }
        while i < files.len()
            invariant
                i <= files@.len(),
                all == file_contents(files@),
                tables.wf(),
                table_set(all.take(i as int)) == Ok::<TableSet, Error>(tables@),
            decreases files@.len() - i,
        {
            let ghost before = tables@;
            let id: u64 = files[i].0;
            let data = files[i].1;
            proof {
                assert(all.take(i + 1).drop_last() =~= all.take(i as int));
                assert(all.take(i + 1).last() == all[i as int]);
                if table_set(all.take(i + 1)) is Err {
                    lemma_table_set_stops(all, i + 1);
                }
            }
            let footer = SstFooter::read_from_file(data)?;
            let reader = SstReader::open(data)?;
            if footer.max_seq > tables.max_seq {
                tables.max_seq = footer.max_seq;
            }
            tables.readers.push(reader);
            let after: u64 = id.saturating_add(1);
            if after > tables.next_sst {
                tables.next_sst = after;
            }
            assert(reader_tables(tables.readers@) =~= before.tables.push(reader@));
            i = i + 1;
        }
        assert(all.take(all.len() as int) =~= all);
        Ok(tables)
    }
}

/// The next table file gets a number beyond those of the tables that are there,
/// so that it is listed as the newest, until the numbers are used up.
pub proof fn law_next_table_is_newest(files: Seq<(u64, Seq<u8>)>, i: int)
    requires
        table_set(files) is Ok,
        0 <= i < files.len(),
    ensures
        files[i].0 < table_set(files)->Ok_0.next_sst || files[i].0 == u64::MAX,
    decreases files.len(),
{
    if i < files.len() - 1 {
        law_next_table_is_newest(files.drop_last(), i);
    }
}

/// The first file that cannot be read decides.
proof fn lemma_table_set_stops(files: Seq<(u64, Seq<u8>)>, i: int)
    requires
        0 <= i <= files.len(),
        table_set(files.take(i)) is Err,
    ensures
        table_set(files) == table_set(files.take(i)),
    decreases files.len(),
{
    if i == files.len() {
        assert(files.take(i) =~= files);
    } else {
        assert(files.drop_last().take(i) =~= files.take(i));
        lemma_table_set_stops(files.drop_last(), i);
    }
}

/// The state in which an engine opens: the tables on disk, and the writes of the
/// log applied to an empty table in memory.
pub open spec fn opened(set: TableSet, rows: Seq<Row>, log: u64, capacity: usize) -> Result<
    State,
    Error,
> {
    let high = if highest_seq(rows) > set.max_seq {
        highest_seq(rows)
    } else {
        set.max_seq
    };
    if high == u64::MAX {
        Err(Error::SequenceOverflow)
    } else {
        Ok(
            State {
                mem: applied_all(Contents::empty(), rows),
                mem_size: size_after(rows),
                capacity,
                tables: set.tables,
                next_sst: set.next_sst,
                next_seq: (high + 1) as u64,
                log: Some(log),
            },
        )
    }
}

// ---------------------------------------------------------------------------
// The engine
// ---------------------------------------------------------------------------

/// A write that is to be logged and then applied.
pub struct Pending {
    /// The frame, and where it goes.
    pub write: WalWrite,
    /// The number of the write.
    pub seq: SeqNum,
    /// The operation.
    pub op: WalOp,
}

/// A table that is to be stored in a file.
pub struct FlushPlan {
    /// The number of the file.
    pub id: u64,
    /// The name of the file.
    pub name: String,
    /// Its bytes and their summary.
    pub image: SstImage,
}

/// A key-value engine over a log, a table in memory and tables on disk. The files
/// are the caller's.
pub struct Engine<'a> {
    wal: Option<Wal>,
    mem: MemTable,
    sstables: Vec<SstReader<'a>>,
    next_sst: u64,
    next_seq: SeqNum,
    mem_capacity_bytes: usize,
}

impl<'a> View for Engine<'a> {
    type V = State;

    closed spec fn view(&self) -> State {
        State {
            mem: self.mem@,
            mem_size: self.mem.spec_approx() as int,
            capacity: self.mem_capacity_bytes,
            tables: reader_tables(self.sstables@),
            next_sst: self.next_sst,
            next_seq: self.next_seq@,
            log: match self.wal {
                Some(wal) => Some(wal.spec_offset()),
                None => None,
            },
        }
    }
}

impl<'a> Engine<'a> {
    /// The parts are well-formed, and every write in memory has a number before the
    /// next, until the numbers are used up.
    pub closed spec fn wf(self) -> bool {
        &&& self.mem.wf()
        &&& self.mem.spec_capacity() == self.mem_capacity_bytes
        &&& forall|i: int| 0 <= i < self.sstables@.len() ==> (#[trigger] self.sstables@[i]).wf()
        &&& self.wal matches Some(wal) ==> wal.wf()
        &&& self@.valid()
    }

    /// What being well-formed means for the state.
    pub proof fn lemma_wf(self)
        requires
            self.wf(),
        ensures
            self@.valid(),
            self@.log matches Some(end) ==> end % 4096 == 0,
    {
        if let Some(wal) = self.wal {
            wal.lemma_wf();
        }
    }

    /// Opens an engine with default options.
    pub fn open(tables: Tables<'a>, wal: Wal, image: &[u8]) -> (r: Result<Self, Error>)
        requires
            tables.wf(),
            wal.wf(),
        ensures
            opens_as(tables@, wal, image@, DEFAULT_MEM_CAPACITY, r),
    {
        Self::open_with(tables, wal, image, EngineOptions::default())
    }

    /// Opens an engine over open tables and an open log, whose file holds `image`:
    /// the log is replayed.
    #[verifier::rlimit(40)]
    pub fn open_with(tables: Tables<'a>, wal: Wal, image: &[u8], opts: EngineOptions) -> (r: Result<
        Self,
        Error,
    >)
        requires
            tables.wf(),
            wal.wf(),
        ensures
            opens_as(tables@, wal, image@, opts.mem_capacity_bytes, r),
    {
        let ghost set = tables@;
        let records = wal.replay(image)?;
        let ghost rows = record_rows(records@);
        let mut mem = MemTable::new(opts.mem_capacity_bytes);
        let mut max_seq: u64 = tables.max_seq;
        let mut done: usize = 0;
        assert(rows.take(0) =~= seq![]);
        while done < records.len()
            invariant
                done <= records@.len(),
                rows == record_rows(records@),
                mem.wf(),
                mem.spec_capacity() == opts.mem_capacity_bytes,
                mem@ == applied_all(Contents::empty(), rows.take(done as int)),
                mem.spec_approx() == size_after(rows.take(done as int)),
                max_seq == if highest_seq(rows.take(done as int)) > set.max_seq {
                    highest_seq(rows.take(done as int))
                } else {
                    set.max_seq
                },
                forall|key: Seq<u8>| #[trigger] mem@.contains_key(key) ==> mem@[key].0 <= max_seq,
            decreases records@.len() - done,
        {
            let record = &records[done];
            proof {
                assert(rows.take(done + 1).drop_last() =~= rows.take(done as int));
                assert(rows.take(done + 1).last() == record@);
            }
            if record.seq.get() > max_seq {
                max_seq = record.seq.get();
            }
            match &record.op {
                WalOp::Put { key, value } => {
                    let _ = mem.put(key.clone(), value.clone(), record.seq);
                },
                WalOp::Delete { key } => {
                    let _ = mem.delete(key.clone(), record.seq);
                },
            }
            done = done + 1;
        }
        assert(rows.take(rows.len() as int) =~= rows);
        let next_seq = SeqNum::new(max_seq).next()?;
        proof {
            mem.lemma_wf();
        }
        Ok(
            Engine {
                wal: Some(wal),
                mem,
                sstables: tables.readers,
                next_sst: tables.next_sst,
                next_seq,
                mem_capacity_bytes: opts.mem_capacity_bytes,
            },
        )
    }

    /// `true` iff the table in memory has reached its capacity.
    pub fn needs_flush(&self) -> (r: bool)
        requires
            self.wf(),
        ensures
            r == (self@.mem_size >= self@.capacity),
    {
        self.mem.is_full()
    }

    /// The number of tables on disk.
    pub fn sstable_count(&self) -> (r: usize)
        ensures
            r == self@.tables.len(),
    {
        self.sstables.len()
    }

    /// A write of `value` to `key`: the frame to be written to the log. Once it is
    /// on disk, [`Engine::apply`] makes the write visible.
    pub fn put(&self, key: &[u8], value: &[u8]) -> (r: Result<Pending, Error>)
        requires
            self.wf(),
        ensures
            prepares(self@, key@, Some(value@), r),
            r is Ok <==> key@.len() > 0 && self@.log is Some && 25 + key@.len() + value@.len()
                <= 16777216,
    {
        let key = Key::new(key)?;
        self.log_op(WalOp::Put { key, value: Value::new(value) })
    }

    /// A delete of `key`: the frame to be written to the log. Once it is on disk,
    /// [`Engine::apply`] makes the delete visible.
    pub fn delete(&self, key: &[u8]) -> (r: Result<Pending, Error>)
        requires
            self.wf(),
        ensures
            prepares(self@, key@, None, r),
            r is Ok <==> key@.len() > 0 && self@.log is Some && 25 + key@.len() <= 16777216,
    {
        let key = Key::new(key)?;
        self.log_op(WalOp::Delete { key })
    }

    /// The frame of `op` under the next number.
    fn log_op(&self, op: WalOp) -> (r: Result<Pending, Error>)
        requires
            self.wf(),
            op.spec_key().len() > 0,
        ensures
            prepares(self@, op.spec_key(), op.spec_value(), r),
    {
        let seq = self.next_seq;
        match &self.wal {
            Some(wal) => {
                let write = wal.append(seq, &op)?;
                Ok(Pending { write, seq, op })
            },
            None => Err(Error::WalCorrupt("WAL no inicializado")),
        }
    }

    /// The frame of `pending`, which [`Engine::put`] or [`Engine::delete`] gave in
    /// this state, is on disk: the table in memory takes the write.
    pub fn apply(&mut self, pending: Pending) -> (r: Result<(), Error>)
        requires
            old(self).wf(),
            old(self)@.log is Some,
            pending.seq@ == old(self)@.next_seq,
            pending.write.bytes@.len() % 4096 == 0,
            old(self)@.log->Some_0 + pending.write.bytes@.len() <= u64::MAX,
        ensures
            final(self).wf(),
            final(self)@ == old(self)@.after_write(
                pending.op.spec_key(),
                pending.op.spec_value(),
                pending.write.bytes@.len() as int,
            ),
            r == if old(self)@.next_seq == u64::MAX {
                Err::<(), Error>(Error::SequenceOverflow)
            } else {
                Ok(())
            },
    {
        let Pending { write, seq, op } = pending;
        if let Some(wal) = &mut self.wal {
            wal.appended(&write);
        }
        match op {
            WalOp::Put { key, value } => {
                let _ = self.mem.put(key, value, seq);
            },
            WalOp::Delete { key } => {
                let _ = self.mem.delete(key, seq);
            },
        }
        proof {
            self.mem.lemma_wf();
        }
        self.next_seq = seq.next()?;
        Ok(())
    }

    /// What the engine knows of `key`.
    pub fn get(&self, key: &[u8]) -> (r: Result<EngineLookup<'_>, Error>)
        requires
            self.wf(),
        ensures
            match r {
                Ok(found) => {
                    &&& self@.lookup(key@) == Ok::<Option<Version>, Error>(found@)
                    &&& found matches EngineLookup::Alive(value) ==> (value is Mem)
                        == self@.mem.contains_key(key@)
                    &&& found matches EngineLookup::Alive(EngineValue::Mem(pinned)) ==> pinned@.0
                        == key@
                },
                Err(e) => self@.lookup(key@) == Err::<Option<Version>, Error>(e),
            },
            key@.len() == 0 ==> r is Err && r->Err_0 == Error::EmptyKey,
            r matches Ok(EngineLookup::Missing) <==> key@.len() > 0 && !self@.mem.contains_key(key@)
                && (forall|i: int|
                0 <= i < self@.tables.len() ==> (#[trigger] self@.tables[i]).lookup(key@) == Ok::<
                    Option<Version>,
                    Error,
                >(None)),
            key@.len() > 0 && self@.mem.contains_key(key@) ==> r is Ok && r->Ok_0@ == Some(
                self@.mem[key@],
            ),
    {
        proof {
            law_lookup(self@, key@);
            if find_newest(self@.tables, key@) == Ok::<Option<Version>, Error>(None) {
                law_nothing_found_means_unknown(self@.tables, key@);
            }
        }
        if key.len() == 0 {
            return Err(Error::EmptyKey);
        }
        match self.mem.get(key) {
            Lookup::Alive(pinned) => {
                return Ok(EngineLookup::Alive(EngineValue::Mem(pinned)));
            },
            Lookup::Deleted(seq) => {
                return Ok(EngineLookup::Deleted(seq));
            },
            Lookup::Missing => {},
        }
        let ghost tables = self@.tables;
        let mut i: usize = self.sstables.len();
        assert(tables.take(i as int) =~= tables);
        while i > 0
            invariant
                self.wf(),
                i <= self.sstables@.len(),
                tables == reader_tables(self.sstables@),
                !self@.mem.contains_key(key@),
                self@.lookup(key@) == find_newest(tables.take(i as int), key@),
            decreases i,
        {
            proof {
                assert(tables.take(i as int).drop_last() =~= tables.take(i - 1));
                assert(tables.take(i as int).last() == self.sstables@[i - 1]@);
            }
            i = i - 1;
            match self.sstables[i].get(key)? {
                SstLookup::Alive { seq, value } => {
                    return Ok(EngineLookup::Alive(EngineValue::Sst { seq, bytes: value }));
                },
                SstLookup::Deleted(seq) => {
                    return Ok(EngineLookup::Deleted(seq));
                },
                SstLookup::Missing => {},
            }
        }
        Ok(EngineLookup::Missing)
    }

    /// The table in memory as a new table file; `None` if there is nothing to
    /// store. Once the file is there, [`Engine::install`] takes it over.
    pub fn flush(&self) -> (r: Result<Option<FlushPlan>, Error>)
        requires
            self.wf(),
        ensures
            match r {
                Ok(Some(plan)) => {
                    &&& self@.mem != Contents::empty()
                    &&& plan.id == self@.next_sst
                    &&& plan.name@ == table_name(self@.next_sst)
                    &&& flushed(self@.mem, DEFAULT_BLOCK_SIZE, 10) is Ok
                    &&& plan.image.is_table(flushed(self@.mem, DEFAULT_BLOCK_SIZE, 10)->Ok_0)
                },
                Ok(None) => self@.mem == Contents::empty(),
                Err(e) => {
                    &&& self@.mem != Contents::empty()
                    &&& flushed(self@.mem, DEFAULT_BLOCK_SIZE, 10) is Err
                    &&& flushed(self@.mem, DEFAULT_BLOCK_SIZE, 10)->Err_0 == e
                },
            },
    {
        if self.mem.is_empty() {
            return Ok(None);
        }
        let name = sst_file_name(self.next_sst);
        let image = flush_memtable(&self.mem)?;
        Ok(Some(FlushPlan { id: self.next_sst, name, image }))
    }

    /// The table of [`Engine::flush`] is a file that holds `data`: it becomes the
    /// newest table, the table in memory is emptied, and the log is closed until
    /// [`Engine::rotate_wal`]. If `data` is not a table, nothing changes.
    pub fn install(&mut self, data: &'a [u8]) -> (r: Result<(), Error>)
        requires
            old(self).wf(),
        ensures
            final(self).wf(),
            match r {
                Ok(_) => table_in(data@) is Ok && final(self)@ == old(self)@.after_flush(
                    table_in(data@)->Ok_0,
                ),
                Err(e) => table_in(data@) == Err::<Table, Error>(e) && final(self)@ == old(self)@,
            },
    {
        let reader = SstReader::open(data)?;
        let ghost before = self@.tables;
        self.sstables.push(reader);
        self.next_sst = self.next_sst.saturating_add(1);
        self.mem = MemTable::new(self.mem_capacity_bytes);
        self.wal = None;
        assert(reader_tables(self.sstables@) =~= before.push(reader@));
        Ok(())
    }

    /// Goes on with a new log.
    pub fn rotate_wal(&mut self, wal: Wal)
        requires
            old(self).wf(),
            wal.wf(),
        ensures
            final(self).wf(),
            final(self)@ == (State { log: Some(wal.spec_offset()), ..old(self)@ }),
    {
        self.wal = Some(wal);
    }
}

/// `r` is what a write of `value` (or a delete) to `key` gives in `state`.
pub open spec fn prepares(
    state: State,
    key: Seq<u8>,
    value: Option<Seq<u8>>,
    r: Result<Pending, Error>,
) -> bool {
    let row = state.next_row(key, value);
    if key.len() == 0 {
        r == Err::<Pending, Error>(Error::EmptyKey)
    } else if state.log is None {
        r == Err::<Pending, Error>(Error::WalCorrupt("WAL no inicializado"))
    } else if frame_len(row) > MAX_RECORD_BYTES {
        r == Err::<Pending, Error>(
            Error::WalRecordTooLarge {
                size: capped(frame_len(row)) as usize,
                max: MAX_RECORD_BYTES,
            },
        )
    } else {
        r matches Ok(pending) && {
            &&& pending.seq@ == state.next_seq
            &&& pending.op.spec_key() == key
            &&& pending.op.spec_value() == value
            &&& pending.write.offset == state.log->Some_0
            &&& pending.write.bytes@ == frame(row)
            &&& pending.write.bytes@.len() == frame_len(row)
            &&& frame_len(row) % 4096 == 0
        }
    }
}

/// `r` is what opening an engine gives.
pub open spec fn opens_as(
    set: TableSet,
    wal: Wal,
    image: Seq<u8>,
    capacity: usize,
    r: Result<Engine<'_>, Error>,
) -> bool {
    match replayed(image, wal.spec_offset() as int) {
        Err(e) => r == Err::<Engine<'_>, Error>(e),
        Ok(rows) => match r {
            Ok(engine) => engine.wf() && opened(set, rows, wal.spec_offset(), capacity) == Ok::<
                State,
                Error,
            >(engine@),
            Err(e) => opened(set, rows, wal.spec_offset(), capacity) == Err::<State, Error>(e),
        },
    }
}

// ---------------------------------------------------------------------------
// Laws
// ---------------------------------------------------------------------------

/// After a write, a lookup of its key finds it: the value of a put, the tombstone
/// of a delete, whatever the tables on disk hold.
pub proof fn law_write_then_read(
    state: State,
    key: Seq<u8>,
    value: Option<Seq<u8>>,
    framed: int,
)
    requires
        key.len() > 0,
    ensures
        state.after_write(key, value, framed).lookup(key) == Ok::<Option<Version>, Error>(
            Some((state.next_seq, value)),
        ),
{
}

/// A write changes no lookup of another key.
pub proof fn law_write_is_local(
    state: State,
    key: Seq<u8>,
    value: Option<Seq<u8>>,
    framed: int,
    other: Seq<u8>,
)
    requires
        other != key,
    ensures
        state.after_write(key, value, framed).lookup(other) == state.lookup(other),
{
}

/// A write keeps the state valid, and the numbers of writes increase until they
/// reach the largest.
pub proof fn law_write_keeps_valid(
    state: State,
    key: Seq<u8>,
    value: Option<Seq<u8>>,
    framed: int,
)
    requires
        state.valid(),
        key.len() > 0,
    ensures
        state.after_write(key, value, framed).valid(),
        state.next_seq < u64::MAX ==> state.after_write(key, value, framed).next_seq
            == state.next_seq + 1,
        supersedes(state.mem, state.next_row(key, value)),
{
    let next = state.after_write(key, value, framed);
    assert forall|k: Seq<u8>| #[trigger] next.mem.contains_key(k) implies k.len() > 0
        && next.is_past(next.mem[k].0) by {
        if k != key {
            assert(state.mem.contains_key(k));
        }
    }
}

/// A write gets a number above that of everything a lookup could find before it,
/// and the same holds of the write after it.
pub proof fn law_number_exceeds_earlier(
    state: State,
    key: Seq<u8>,
    value: Option<Seq<u8>>,
    framed: int,
)
    requires
        state.numbers_past(),
        key.len() > 0,
    ensures
        state.after_write(key, value, framed).numbers_past(),
        state.next_seq < u64::MAX ==> forall|other: Seq<u8>| #[trigger]
            state.lookup(other) matches Ok(Some(version)) ==> version.0 < state.next_row(
                key,
                value,
            ).1.0,
{
    let next = state.after_write(key, value, framed);
    assert forall|other: Seq<u8>|
        (#[trigger] next.lookup(other) matches Ok(Some(version)) ==> next.is_past(version.0)) by {
        if other != key {
            law_write_is_local(state, key, value, framed, other);
            assert(next.lookup(other) == state.lookup(other));
        }
    }
}

/// The path of a write as a whole. An empty key, a closed log and a frame that is
/// too large are refused, each with its error, and there is no frame to store.
/// Otherwise there is one, which adds one record to the log. Once it is applied, a
/// lookup of the key finds the value, or that the key was deleted, under a number
/// above every earlier one, and every other key is answered as before.
pub proof fn law_path_of_a_write(
    state: State,
    flags: u16,
    rows: Seq<Row>,
    key: Seq<u8>,
    value: Option<Seq<u8>>,
    r: Result<Pending, Error>,
)
    requires
        prepares(state, key, value, r),
        state.numbers_past(),
    ensures
        key.len() == 0 ==> r == Err::<Pending, Error>(Error::EmptyKey),
        key.len() > 0 && state.log is None ==> r == Err::<Pending, Error>(
            Error::WalCorrupt("WAL no inicializado"),
        ),
        key.len() > 0 && state.log is Some && r is Err ==> r == Err::<Pending, Error>(
            Error::WalRecordTooLarge {
                size: capped(frame_len(state.next_row(key, value))) as usize,
                max: MAX_RECORD_BYTES,
            },
        ),
        r is Ok <==> key.len() > 0 && state.log is Some && frame_len(state.next_row(key, value))
            <= MAX_RECORD_BYTES,
        r matches Ok(pending) ==> {
            let after = state.after_write(key, value, pending.write.bytes@.len() as int);
            &&& log_image(flags, rows) + pending.write.bytes@ == log_image(
                flags,
                rows.push(state.next_row(key, value)),
            )
            &&& after.lookup(key) == Ok::<Option<Version>, Error>(Some((state.next_seq, value)))
            &&& forall|other: Seq<u8>|
                other != key ==> #[trigger] after.lookup(other) == state.lookup(other)
            &&& state.next_seq < u64::MAX ==> forall|other: Seq<u8>| #[trigger]
                state.lookup(other) matches Ok(Some(version)) ==> version.0 < state.next_seq
            &&& after.numbers_past()
        },
{
    if let Ok(pending) = r {
        let framed = pending.write.bytes@.len() as int;
        law_append_extends_log(flags, rows, state.next_row(key, value));
        law_write_then_read(state, key, value, framed);
        law_number_exceeds_earlier(state, key, value, framed);
        assert forall|other: Seq<u8>| other != key implies #[trigger] state.after_write(
            key,
            value,
            framed,
        ).lookup(other) == state.lookup(other) by {
            law_write_is_local(state, key, value, framed, other);
        }
    }
}

/// What the table in memory holds hides what the tables on disk hold; a tombstone
/// too.
pub proof fn law_memory_hides_tables(state: State, key: Seq<u8>, tables: Seq<Table>)
    requires
        key.len() > 0,
        state.mem.contains_key(key),
    ensures
        state.lookup(key) == (State { tables, ..state }).lookup(key),
        state.lookup(key) == Ok::<Option<Version>, Error>(Some(state.mem[key])),
{
}

/// A newer table hides older ones; where it does not know the key, they decide.
pub proof fn law_newer_table_wins(tables: Seq<Table>, newest: Table, key: Seq<u8>)
    ensures
        newest.lookup(key) matches Ok(Some(_)) ==> find_newest(tables.push(newest), key)
            == newest.lookup(key),
        newest.lookup(key) matches Ok(None) ==> find_newest(tables.push(newest), key)
            == find_newest(tables, key),
{
    assert(tables.push(newest).drop_last() =~= tables);
}

/// The table in memory can become a file whose bytes fit in memory.
pub open spec fn flushes(state: State) -> bool {
    &&& flushed(state.mem, DEFAULT_BLOCK_SIZE, 10) is Ok
    &&& flushed(state.mem, DEFAULT_BLOCK_SIZE, 10)->Ok_0.to_bytes().len() <= usize::MAX
}

/// The file that a flush writes.
pub open spec fn flush_file(state: State) -> Seq<u8> {
    flushed(state.mem, DEFAULT_BLOCK_SIZE, 10)->Ok_0.to_bytes()
}

/// Every entry of `m` came from a write that can be logged.
pub open spec fn entries_loggable(m: Contents) -> bool {
    forall|key: Seq<u8>| #[trigger] m.contains_key(key) ==> loggable((key, m[key]))
}

/// A flush of entries that were logged succeeds as long as there are at most
/// 53,687,091 of them, ten bits for each of which fit the largest Bloom filter.
pub proof fn law_flush_succeeds(m: Contents)
    requires
        m.dom().finite(),
        entries_loggable(m),
        m.dom().len() <= 53687091,
    ensures
        flushed(m, DEFAULT_BLOCK_SIZE, 10) is Ok,
{
    let rows = listing(m);
    law_listing_exists(m);
    law_filter_exists_within_limit(m.dom().len(), 10);
    law_filter_exists_within_limit(1, 10);
    assert forall|i: int| 0 <= i < rows.len() implies BLOCK_HEADER_SIZE + row_bytes(
        #[trigger] rows[i],
    ).len() <= u32::MAX by {
        assert(m.contains_key(rows[i].0));
        assert(loggable((rows[i].0, m[rows[i].0])));
        lemma_row_bytes_len(rows[i]);
    }
    law_small_rows_are_written(rows, m.dom().len(), DEFAULT_BLOCK_SIZE, 10);
}

/// What the table in memory holds can be logged, after an opening and after every
/// write.
pub proof fn law_entries_are_loggable(rows: Seq<Row>)
    requires
        all_loggable(rows),
    ensures
        entries_loggable(applied_all(Contents::empty(), rows)),
    decreases rows.len(),
{
    if rows.len() > 0 {
        let front = rows.drop_last();
        assert forall|i: int| 0 <= i < front.len() implies loggable(#[trigger] front[i]) by {
            assert(front[i] == rows[i]);
        }
        law_entries_are_loggable(front);
        let before = applied_all(Contents::empty(), front);
        let after = applied_all(Contents::empty(), rows);
        assert(loggable(rows[rows.len() - 1]));
        assert forall|key: Seq<u8>| #[trigger] after.contains_key(key) implies loggable(
            (key, after[key]),
        ) by {
            if !(key == rows.last().0 && supersedes(before, rows.last())) {
                assert(before.contains_key(key));
            }
        }
    }
}

/// A flush changes no lookup: the new table opens, and with it in place of the
/// table in memory every key is answered as before.
pub proof fn law_flush_keeps_lookups(state: State, key: Seq<u8>)
    requires
        state.valid(),
        flushes(state),
    ensures
        table_in(flush_file(state)) is Ok,
        state.after_flush(table_in(flush_file(state))->Ok_0).lookup(key) == state.lookup(key),
        state.after_flush(table_in(flush_file(state))->Ok_0).valid(),
{
    let any: Seq<u8> = seq![0u8];
    law_flush_then_read(state.mem, DEFAULT_BLOCK_SIZE, 10, any);
    let table = table_in(flush_file(state))->Ok_0;
    if key.len() > 0 {
        law_flush_then_read(state.mem, DEFAULT_BLOCK_SIZE, 10, key);
        law_newer_table_wins(state.tables, table, key);
    }
}

/// A flush leaves the numbers of what lookups find before the next number.
pub proof fn law_flush_keeps_numbers_past(state: State)
    requires
        state.valid(),
        flushes(state),
        state.numbers_past(),
    ensures
        state.after_flush(table_in(flush_file(state))->Ok_0).numbers_past(),
{
    let after = state.after_flush(table_in(flush_file(state))->Ok_0);
    assert forall|key: Seq<u8>|
        (#[trigger] after.lookup(key) matches Ok(Some(version)) ==> after.is_past(version.0)) by {
        law_flush_keeps_lookups(state, key);
        assert(after.lookup(key) == state.lookup(key));
    }
}

/// A crash after the new table was stored but before the log was rotated is
/// harmless: the writes are then both in the table and in memory, and every key
/// is answered as before.
pub proof fn law_crash_before_rotation(state: State, key: Seq<u8>)
    requires
        state.valid(),
        flushes(state),
    ensures
        (State {
            tables: state.tables.push(table_in(flush_file(state))->Ok_0),
            ..state
        }).lookup(key) == state.lookup(key),
{
    if key.len() > 0 && !state.mem.contains_key(key) {
        law_flush_then_read(state.mem, DEFAULT_BLOCK_SIZE, 10, key);
        law_newer_table_wins(state.tables, table_in(flush_file(state))->Ok_0, key);
    }
}

/// Writes applied to an empty table: there are finitely many keys, none of them
/// empty, and the largest number is there and no larger one.
proof fn lemma_applied_all(rows: Seq<Row>)
    requires
        forall|i: int| 0 <= i < rows.len() ==> (#[trigger] rows[i]).0.len() > 0,
    ensures
        ({
            let mem = applied_all(Contents::empty(), rows);
            &&& mem.dom().finite()
            &&& forall|key: Seq<u8>| #[trigger]
                mem.contains_key(key) ==> key.len() > 0 && mem[key].0 <= highest_seq(rows)
            &&& rows.len() > 0 ==> exists|key: Seq<u8>| #[trigger]
                mem.contains_key(key) && mem[key].0 == highest_seq(rows)
        }),
    decreases rows.len(),
{
    if rows.len() > 0 {
        let front = rows.drop_last();
        let row = rows.last();
        assert(forall|i: int| 0 <= i < front.len() ==> #[trigger] front[i] == rows[i]);
        lemma_applied_all(front);
        let before = applied_all(Contents::empty(), front);
        let mem = applied(before, row);
        assert(rows[rows.len() - 1] == row);
        assert forall|key: Seq<u8>| #[trigger] mem.contains_key(key) implies key.len() > 0
            && mem[key].0 <= highest_seq(rows) by {
            if key != row.0 {
                assert(before.contains_key(key));
            }
        }
        if row.1.0 >= highest_seq(front) {
            if before.contains_key(row.0) {
                assert(before[row.0].0 <= highest_seq(front));
            }
            assert(mem.contains_key(row.0) && mem[row.0].0 == highest_seq(rows));
        } else {
            let key = choose|key: Seq<u8>| #[trigger]
                before.contains_key(key) && before[key].0 == highest_seq(front);
            assert(front.len() > 0);
            assert(mem.contains_key(key) && mem[key].0 == highest_seq(rows));
        }
    }
}

/// An engine opens in a valid state, and the number of its next write is larger
/// than any number in the log or in the tables.
pub proof fn law_opened_is_valid(set: TableSet, rows: Seq<Row>, log: u64, capacity: usize)
    requires
        opened(set, rows, log, capacity) is Ok,
        forall|i: int| 0 <= i < rows.len() ==> (#[trigger] rows[i]).0.len() > 0,
    ensures
        ({
            let state = opened(set, rows, log, capacity)->Ok_0;
            &&& state.valid()
            &&& state.next_seq > set.max_seq
            &&& forall|i: int| 0 <= i < rows.len() ==> state.next_seq > (#[trigger] rows[i]).1.0
        }),
{
    lemma_applied_all(rows);
    assert forall|i: int| 0 <= i < rows.len() implies highest_seq(rows) >= (#[trigger] rows[i]).1.0 by {
        lemma_highest_seq(rows, i);
    }
}

proof fn lemma_highest_seq(rows: Seq<Row>, i: int)
    requires
        0 <= i < rows.len(),
    ensures
        rows[i].1.0 <= highest_seq(rows),
    decreases rows.len(),
{
    if i < rows.len() - 1 {
        lemma_highest_seq(rows.drop_last(), i);
    }
}

/// Every row can be logged.
pub open spec fn all_loggable(rows: Seq<Row>) -> bool {
    forall|i: int| 0 <= i < rows.len() ==> loggable(#[trigger] rows[i])
}

/// A write is durable once its frame is on disk: an engine that opens from the
/// log with that frame is in the state that the write leads to, whether or not
/// the write was applied before the crash.
pub proof fn law_write_is_durable(
    set: TableSet,
    flags: u16,
    rows: Seq<Row>,
    capacity: usize,
    key: Seq<u8>,
    value: Option<Seq<u8>>,
)
    requires
        all_loggable(rows),
        opened(set, rows, log_image(flags, rows).len() as u64, capacity) is Ok,
        ({
            let state = opened(set, rows, log_image(flags, rows).len() as u64, capacity)->Ok_0;
            let row = state.next_row(key, value);
            &&& loggable(row)
            &&& state.next_seq < u64::MAX
            &&& log_image(flags, rows).len() + frame_len(row) <= u64::MAX
        }),
    ensures
        ({
            let end = log_image(flags, rows).len() as u64;
            let state = opened(set, rows, end, capacity)->Ok_0;
            let row = state.next_row(key, value);
            let file = log_image(flags, rows) + frame(row);
            let new_end = (end + frame_len(row)) as u64;
            &&& file.len() == new_end
            &&& log_end(file) == Ok::<int, Error>(new_end as int)
            &&& replayed(file, new_end as int) == Ok::<Seq<Row>, Error>(rows.push(row))
            &&& opened(set, rows.push(row), new_end, capacity) == Ok::<State, Error>(
                state.after_write(key, value, frame_len(row)),
            )
        }),
{
    let end = log_image(flags, rows).len() as u64;
    let state = opened(set, rows, end, capacity)->Ok_0;
    let row = state.next_row(key, value);
    let more = rows.push(row);
    assert forall|i: int| 0 <= i < more.len() implies loggable(#[trigger] more[i]) by {
        if i < rows.len() {
            assert(more[i] == rows[i]);
        }
    }
    law_append_extends_log(flags, rows, row);
    law_replay_after_reopen(flags, more);
    law_frame_len(row);
    assert forall|i: int| 0 <= i < rows.len() implies (#[trigger] rows[i]).0.len() > 0 by {
        assert(loggable(rows[i]));
    }
    lemma_opened_push(set, rows, end, capacity, key, value, frame_len(row));
}

/// Opening from one write more leads where the write leads.
proof fn lemma_opened_push(
    set: TableSet,
    rows: Seq<Row>,
    end: u64,
    capacity: usize,
    key: Seq<u8>,
    value: Option<Seq<u8>>,
    framed: int,
)
    requires
        opened(set, rows, end, capacity) is Ok,
        opened(set, rows, end, capacity)->Ok_0.next_seq < u64::MAX,
        forall|i: int| 0 <= i < rows.len() ==> (#[trigger] rows[i]).0.len() > 0,
    ensures
        ({
            let state = opened(set, rows, end, capacity)->Ok_0;
            opened(
                set,
                rows.push(state.next_row(key, value)),
                (end + framed) as u64,
                capacity,
            ) == Ok::<State, Error>(state.after_write(key, value, framed))
        }),
{
    let state = opened(set, rows, end, capacity)->Ok_0;
    let row = state.next_row(key, value);
    assert(rows.push(row).drop_last() =~= rows);
    lemma_applied_all(rows);
    assert(supersedes(state.mem, row)) by {
        if state.mem.contains_key(key) {
            assert(state.mem[key].0 <= highest_seq(rows));
        }
    }
}

/// A write is durable after a recovery too, whatever a torn write had left in the
/// file: the log that goes on from the recovered end holds it, and an engine that
/// opens from that log is in the state that the write leads to. A restart finds
/// that log unless what is left behind the new frame reads as a frame itself; it
/// does not where the file ends there.
pub proof fn law_write_is_durable_after_recovery(
    set: TableSet,
    file: Seq<u8>,
    capacity: usize,
    key: Seq<u8>,
    value: Option<Seq<u8>>,
)
    requires
        log_end(file) is Ok,
        file.len() <= u64::MAX,
        opened(
            set,
            replayed(file, log_end(file)->Ok_0)->Ok_0,
            log_end(file)->Ok_0 as u64,
            capacity,
        ) is Ok,
        ({
            let end = log_end(file)->Ok_0;
            let state = opened(set, replayed(file, end)->Ok_0, end as u64, capacity)->Ok_0;
            let row = state.next_row(key, value);
            &&& loggable(row)
            &&& state.next_seq < u64::MAX
            &&& end + frame_len(row) <= u64::MAX
        }),
    ensures
        ({
            let end = log_end(file)->Ok_0;
            let rows = replayed(file, end)->Ok_0;
            let state = opened(set, rows, end as u64, capacity)->Ok_0;
            let row = state.next_row(key, value);
            let after = written(file, end, frame(row));
            let new_end = end + frame_len(row);
            &&& replayed(after, new_end) == Ok::<Seq<Row>, Error>(rows.push(row))
            &&& opened(set, rows.push(row), new_end as u64, capacity) == Ok::<State, Error>(
                state.after_write(key, value, frame_len(row)),
            )
            &&& log_from(after, new_end) == Ok::<(Seq<Row>, int), Error>((seq![], new_end))
                ==> log_end(after) == Ok::<int, Error>(new_end)
            &&& file.len() < new_end + WAL_ALIGN ==> log_end(after) == Ok::<int, Error>(new_end)
        }),
{
    let end = log_end(file)->Ok_0;
    let rows = replayed(file, end)->Ok_0;
    let state = opened(set, rows, end as u64, capacity)->Ok_0;
    let row = state.next_row(key, value);
    law_append_after_recovery(file, row);
    law_frame_len(row);
    law_log_ends_at_page(file, WAL_ALIGN as int);
    let log = if end < file.len() {
        file.subrange(0, end)
    } else {
        file
    };
    law_logged_keys_are_not_empty(log, WAL_ALIGN as int);
    lemma_opened_push(set, rows, end as u64, capacity, key, value, frame_len(row));
    let after = written(file, end, frame(row));
    if file.len() < end + frame_len(row) + WAL_ALIGN {
        law_log_ends_with_file(after, end + frame_len(row));
    }
}

/// A crash in the middle of writing a frame takes back that write and no other:
/// an engine that opens from the log is in the state before the write.
pub proof fn law_torn_write_is_undone(
    set: TableSet,
    flags: u16,
    rows: Seq<Row>,
    capacity: usize,
    key: Seq<u8>,
    value: Option<Seq<u8>>,
    written: nat,
)
    requires
        all_loggable(rows),
        opened(set, rows, log_image(flags, rows).len() as u64, capacity) is Ok,
        log_image(flags, rows).len() <= u64::MAX,
        ({
            let state = opened(set, rows, log_image(flags, rows).len() as u64, capacity)->Ok_0;
            let row = state.next_row(key, value);
            loggable(row) && written < frame_len(row)
        }),
    ensures
        ({
            let end = log_image(flags, rows).len() as u64;
            let state = opened(set, rows, end, capacity)->Ok_0;
            let file = log_image(flags, rows) + frame(state.next_row(key, value)).take(
                written as int,
            );
            &&& log_end(file) == Ok::<int, Error>(end as int)
            &&& replayed(file, end as int) == Ok::<Seq<Row>, Error>(rows)
        }),
{
    let end = log_image(flags, rows).len() as u64;
    let state = opened(set, rows, end, capacity)->Ok_0;
    let row = state.next_row(key, value);
    law_frame_len(row);
    let torn = frame(row).take(written as int);
    assert(torn == frame(row).take(torn.len() as int));
    law_torn_append(flags, rows, row, torn);
}

/// After a flush, an engine that opens from the files, with a new log, is in the
/// state that the flush left: it answers every key as before the flush and goes on
/// with the same numbers.
pub proof fn law_flush_then_reopen(
    files: Seq<(u64, Seq<u8>)>,
    rows: Seq<Row>,
    log: u64,
    capacity: usize,
    key: Seq<u8>,
)
    requires
        table_set(files) is Ok,
        all_loggable(rows),
        rows.len() > 0,
        opened(table_set(files)->Ok_0, rows, log, capacity) is Ok,
        flushes(opened(table_set(files)->Ok_0, rows, log, capacity)->Ok_0),
    ensures
        ({
            let state = opened(table_set(files)->Ok_0, rows, log, capacity)->Ok_0;
            let more = files.push((state.next_sst, flush_file(state)));
            &&& table_set(more) is Ok
            &&& table_in(flush_file(state)) is Ok
            &&& ({
                let after = State {
                    log: Some(WAL_ALIGN as u64),
                    ..state.after_flush(table_in(flush_file(state))->Ok_0)
                };
                &&& opened(table_set(more)->Ok_0, seq![], WAL_ALIGN as u64, capacity) == Ok::<
                    State,
                    Error,
                >(after)
                &&& after.lookup(key) == state.lookup(key)
                &&& after.next_seq == state.next_seq
            })
        }),
{
    let set = table_set(files)->Ok_0;
    let state = opened(set, rows, log, capacity)->Ok_0;
    let file = flush_file(state);
    let more = files.push((state.next_sst, file));
    assert forall|i: int| 0 <= i < rows.len() implies (#[trigger] rows[i]).0.len() > 0 by {
        assert(loggable(rows[i]));
    }
    law_opened_is_valid(set, rows, log, capacity);
    lemma_applied_all(rows);
    law_flush_keeps_lookups(state, key);
    lemma_flush_records_highest(state.mem);
    assert(more.drop_last() =~= files);
    let listed = listing(state.mem);
    law_listing_exists(state.mem);
    let top = choose|top: Seq<u8>| #[trigger]
        state.mem.contains_key(top) && state.mem[top].0 == highest_seq(rows);
    let t = choose|t: int| 0 <= t < listed.len() && #[trigger] listed[t].0 == top;
    assert(listed[t].1.0 == highest_seq(rows));
    lemma_highest_seq(listed, t);
    assert forall|i: int| 0 <= i < listed.len() implies (#[trigger] listed[i]).1.0 <= highest_seq(
        rows,
    ) by {
        assert(state.mem.contains_key(listed[i].0));
    }
    lemma_highest_bound(listed, highest_seq(rows));
    let after = State {
        log: Some(WAL_ALIGN as u64),
        ..state.after_flush(table_in(file)->Ok_0)
    };
    let again = opened(table_set(more)->Ok_0, seq![], WAL_ALIGN as u64, capacity);
    assert(again->Ok_0 =~= after);
}

/// `file` is what a flush wrote.
pub open spec fn is_flush_file(file: Seq<u8>) -> bool {
    exists|m: Contents| #[trigger] flush_writes(m, file)
}

/// A flush of `m` writes `file`.
pub open spec fn flush_writes(m: Contents, file: Seq<u8>) -> bool {
    &&& m.dom().finite()
    &&& flushed(m, DEFAULT_BLOCK_SIZE, 10) is Ok
    &&& flushed(m, DEFAULT_BLOCK_SIZE, 10)->Ok_0.to_bytes() == file
    &&& file.len() <= usize::MAX
}

/// What the tables of flushes hold has no number beyond the largest that their
/// footers say.
pub proof fn law_footers_bound_numbers(files: Seq<(u64, Seq<u8>)>, key: Seq<u8>)
    requires
        forall|i: int| 0 <= i < files.len() ==> is_flush_file(#[trigger] files[i].1),
        table_set(files) is Ok,
        key.len() > 0,
    ensures
        find_newest(table_set(files)->Ok_0.tables, key) matches Ok(Some(version)) ==> version.0
            <= table_set(files)->Ok_0.max_seq,
    decreases files.len(),
{
    if files.len() > 0 {
        let front = files.drop_last();
        let file = files[files.len() - 1].1;
        assert forall|i: int| 0 <= i < front.len() implies is_flush_file(
            #[trigger] front[i].1,
        ) by {
            assert(front[i] == files[i]);
        }
        law_footers_bound_numbers(front, key);
        let m = choose|m: Contents| #[trigger] flush_writes(m, file);
        law_flush_then_read(m, DEFAULT_BLOCK_SIZE, 10, key);
        lemma_flush_records_highest(m);
        law_newer_table_wins(
            table_set(front)->Ok_0.tables,
            table_in(file)->Ok_0,
            key,
        );
        law_listing_exists(m);
        let listed = listing(m);
        if m.contains_key(key) {
            let t = choose|t: int| 0 <= t < listed.len() && #[trigger] listed[t].0 == key;
            lemma_highest_seq(listed, t);
        }
    }
}

/// An engine that opens over tables that flushes wrote, and over its log, gives its
/// next write a number above that of everything a lookup finds.
pub proof fn law_opened_numbers_past(
    files: Seq<(u64, Seq<u8>)>,
    rows: Seq<Row>,
    log: u64,
    capacity: usize,
)
    requires
        forall|i: int| 0 <= i < files.len() ==> is_flush_file(#[trigger] files[i].1),
        table_set(files) is Ok,
        all_loggable(rows),
        opened(table_set(files)->Ok_0, rows, log, capacity) is Ok,
    ensures
        opened(table_set(files)->Ok_0, rows, log, capacity)->Ok_0.numbers_past(),
{
    let set = table_set(files)->Ok_0;
    let state = opened(set, rows, log, capacity)->Ok_0;
    assert forall|i: int| 0 <= i < rows.len() implies (#[trigger] rows[i]).0.len() > 0 by {
        assert(loggable(rows[i]));
    }
    lemma_applied_all(rows);
    assert forall|key: Seq<u8>|
        (#[trigger] state.lookup(key) matches Ok(Some(version)) ==> state.is_past(version.0)) by {
        if key.len() > 0 && !state.mem.contains_key(key) {
            law_footers_bound_numbers(files, key);
        }
    }
}

proof fn lemma_highest_bound(rows: Seq<Row>, bound: u64)
    requires
        forall|i: int| 0 <= i < rows.len() ==> (#[trigger] rows[i]).1.0 <= bound,
    ensures
        highest_seq(rows) <= bound,
    decreases rows.len(),
{
    if rows.len() > 0 {
        let front = rows.drop_last();
        assert forall|i: int| 0 <= i < front.len() implies (#[trigger] front[i]).1.0 <= bound by {
            assert(front[i] == rows[i]);
        }
        lemma_highest_bound(front, bound);
        assert(rows[rows.len() - 1].1.0 <= bound);
    }
}

/// The footer of a flushed table says the largest number of its writes.
proof fn lemma_flush_records_highest(m: Contents)
    requires
        m.dom().finite(),
        flushed(m, DEFAULT_BLOCK_SIZE, 10) is Ok,
        flushed(m, DEFAULT_BLOCK_SIZE, 10)->Ok_0.to_bytes().len() <= usize::MAX,
    ensures
        u64_at(footer_part(flushed(m, DEFAULT_BLOCK_SIZE, 10)->Ok_0.to_bytes()), 64)
            == highest_seq(listing(m)),
{
    let d = flushed(m, DEFAULT_BLOCK_SIZE, 10)->Ok_0;
    law_draft_holds_rows(listing(m), m.dom().len(), DEFAULT_BLOCK_SIZE, 10);
    assert(d.rows() =~= rows_of(d.blocks));
    law_footer_says(d.blocks, d.filter());
}

} // verus!
