//! The table in memory: the newest version of each key, in a skip list.
//!
//! A delete is stored as a tombstone. A key with a tombstone is not the same as
//! a key that is not there: of the second, older tables on disk may still hold a
//! value.

use crate::bytes::{capped, lemma_lex_irreflexive, lex_lt};
use crate::laws::tables::{law_size_is_listed_bytes, listed_bytes};
use crate::types::{
    applied, applied_all, listing, lists, stored, supersedes, Contents, Key, Row, SeqNum, Value,
    Version,
};
use crossbeam_skiplist::map::Entry;
use crossbeam_skiplist::SkipMap;
use vstd::prelude::*;

verus! {

/// Bytes counted per entry besides its key and value.
pub const ENTRY_OVERHEAD: usize = 16;

/// What the skip list stores of a key.
pub struct Record {
    seq: SeqNum,
    tombstone: bool,
    value: Value,
}

/// The number of bytes counted for an entry: key, value and overhead.
pub open spec fn entry_size(key: Seq<u8>, version: Version) -> nat {
    key.len() + (match version.1 {
        Some(value) => value.len(),
        None => 0,
    }) + ENTRY_OVERHEAD as nat
}

impl Record {
    /// The version that this record stores.
    pub closed spec fn version(self) -> Version {
        (
            self.seq@,
            if self.tombstone {
                None
            } else {
                Some(self.value@)
            },
        )
    }

    /// The bytes counted for this record under `key`.
    fn encoded_size(&self, key: &[u8]) -> (r: usize)
        ensures
            r == capped(entry_size(key@, self.version()) as int),
    {
        let payload: usize = if self.tombstone {
            0
        } else {
            self.value.len()
        };
        key.len().saturating_add(payload).saturating_add(ENTRY_OVERHEAD)
    }

    /// A write with number `seq` replaces this record.
    pub(crate) fn superseded_by(&self, seq: SeqNum) -> (r: bool)
        ensures
            r == (seq@ >= self.version().0),
    {
        seq.get() >= self.seq.get()
    }
}

// ---------------------------------------------------------------------------
// The skip list
// ---------------------------------------------------------------------------

/// `crossbeam_skiplist::SkipMap`.
#[verifier::external_type_specification]
#[verifier::external_body]
#[verifier::reject_recursive_types(K)]
#[verifier::reject_recursive_types(V)]
pub struct ExSkipMap<K, V>(SkipMap<K, V>);

/// `crossbeam_skiplist::map::Entry`, a counted reference to an element.
#[verifier::external_type_specification]
#[verifier::external_body]
#[verifier::reject_recursive_types(K)]
#[verifier::reject_recursive_types(V)]
pub struct ExEntry<'a, K, V>(Entry<'a, K, V>);

/// What a skip list holds.
pub uninterp spec fn skip_contents(map: SkipMap<Vec<u8>, Record>) -> Contents;

/// The element that an entry refers to.
pub uninterp spec fn entry_row(entry: Entry<'_, Vec<u8>, Record>) -> Row;

/// The elements that `entries` refer to.
pub open spec fn entry_rows(entries: Seq<Entry<'_, Vec<u8>, Record>>) -> Seq<Row> {
    Seq::new(entries.len(), |i: int| entry_row(entries[i]))
}

/// `SkipMap::new`: an empty map.
#[verifier::external_body]
fn skip_new() -> (r: SkipMap<Vec<u8>, Record>)
    ensures
        skip_contents(r) == Contents::empty(),
{
    SkipMap::new()
}

/// `SkipMap::len`: the number of keys, exact as long as nobody else writes.
#[verifier::external_body]
fn skip_len(map: &SkipMap<Vec<u8>, Record>) -> (n: usize)
    ensures
        n == skip_contents(*map).dom().len(),
{
    map.len()
}

/// `SkipMap::is_empty`: whether there are no keys.
#[verifier::external_body]
fn skip_is_empty(map: &SkipMap<Vec<u8>, Record>) -> (r: bool)
    ensures
        r == (skip_contents(*map) == Contents::empty()),
{
    map.is_empty()
}

/// `SkipMap::get`: the entry of `key`, if the map has the key.
#[verifier::external_body]
fn skip_get<'a>(map: &'a SkipMap<Vec<u8>, Record>, key: &[u8]) -> (r: Option<
    Entry<'a, Vec<u8>, Record>,
>)
    ensures
        match r {
            Some(entry) => skip_contents(*map).contains_key(key@) && entry_row(entry) == (
                key@,
                skip_contents(*map)[key@],
            ),
            None => !skip_contents(*map).contains_key(key@),
        },
{
    map.get(key)
}

/// `SkipMap::compare_insert` with the rule that a record replaces one that is not
/// newer: the map afterwards, and the sequence number of the entry that is then
/// under the key. Keys are compared by `Vec<u8>`'s order and equality.
#[verifier::external_body]
fn skip_insert(map: &mut SkipMap<Vec<u8>, Record>, key: Vec<u8>, record: Record) -> (seq: SeqNum)
    ensures
        skip_contents(*final(map)) == applied(
            skip_contents(*old(map)),
            (key@, record.version()),
        ),
        seq@ == skip_contents(*final(map))[key@].0,
{
    let seq = record.seq;
    map.compare_insert(key, record, |current| current.superseded_by(seq)).value().seq
}

/// `SkipMap::iter`: every entry once, in the lexicographic order of the keys.
#[verifier::external_body]
fn skip_iter<'a>(map: &'a SkipMap<Vec<u8>, Record>) -> (entries: Vec<Entry<'a, Vec<u8>, Record>>)
    ensures
        lists(entry_rows(entries@), skip_contents(*map)),
{
    map.iter().collect()
}

/// `Entry::key`: the key of the element.
#[verifier::external_body]
fn entry_key<'b>(entry: &'b Entry<'_, Vec<u8>, Record>) -> (key: &'b [u8])
    ensures
        key@ == entry_row(*entry).0,
{
    entry.key().as_slice()
}

/// `Entry::value`: the record of the element.
#[verifier::external_body]
fn entry_record<'b>(entry: &'b Entry<'_, Vec<u8>, Record>) -> (record: &'b Record)
    ensures
        record.version() == entry_row(*entry).1,
{
    entry.value()
}

// ---------------------------------------------------------------------------
// Results of a lookup
// ---------------------------------------------------------------------------

/// A live value, tied to its element of the skip list; the value is not copied.
pub struct PinnedValue<'a> {
    key: Key,
    entry: Entry<'a, Vec<u8>, Record>,
}

impl<'a> View for PinnedValue<'a> {
    type V = Row;

    closed spec fn view(&self) -> Row {
        entry_row(self.entry)
    }
}

impl<'a> PinnedValue<'a> {
    /// The element is a value, never a tombstone.
    #[verifier::type_invariant]
    pub open spec fn inv(self) -> bool {
        &&& self@.1.1 is Some
        &&& self.spec_key() == self@.0
    }

    /// The key that is kept beside the element.
    pub closed spec fn spec_key(self) -> Seq<u8> {
        self.key@
    }

    /// The value.
    pub fn value(&self) -> (r: &Value)
        ensures
            self@.1.1 == Some(r@),
    {
        proof {
            use_type_invariant(self);
        }
        &entry_record(&self.entry).value
    }

    /// The number of the write that stored the value.
    pub fn seq(&self) -> (r: SeqNum)
        ensures
            r@ == self@.1.0,
    {
        entry_record(&self.entry).seq
    }

    /// The key.
    pub fn key(&self) -> (r: &Key)
        ensures
            r@ == self@.0,
    {
        proof {
            use_type_invariant(self);
        }
        &self.key
    }
}

/// What the table knows of a key.
pub enum Lookup<'a> {
    /// The key has a value.
    Alive(PinnedValue<'a>),
    /// The key was deleted; older tables must not be asked.
    Deleted(SeqNum),
    /// The table knows nothing of the key; older tables may.
    Missing,
}

impl<'a> View for Lookup<'a> {
    type V = Option<Version>;

    open spec fn view(&self) -> Option<Version> {
        match self {
            Lookup::Alive(pinned) => Some(pinned@.1),
            Lookup::Deleted(seq) => Some((seq@, None)),
            Lookup::Missing => None,
        }
    }
}

/// The value of a version, if there is a version and it has one.
pub open spec fn live_value(found: Option<Version>) -> Option<Seq<u8>> {
    match found {
        Some(version) => version.1,
        None => None,
    }
}

impl<'a> Lookup<'a> {
    /// The value, if the key has one.
    pub fn value(&self) -> (r: Option<&Value>)
        ensures
            match r {
                Some(value) => live_value(self@) == Some(value@),
                None => live_value(self@) is None,
            },
            r is Some <==> self is Alive,
            self matches Lookup::Alive(pinned) ==> pinned@.1.1 == Some(r->Some_0@),
    {
        match self {
            Lookup::Alive(pinned) => Some(pinned.value()),
            Lookup::Deleted(_) => None,
            Lookup::Missing => None,
        }
    }

    /// `true` iff the key was deleted.
    pub fn is_deleted(&self) -> (r: bool)
        ensures
            r == (self is Deleted),
            r == (self@ is Some && live_value(self@) is None),
    {
        match self {
            Lookup::Alive(pinned) => {
                proof {
                    use_type_invariant(pinned);
                }
                false
            },
            Lookup::Deleted(_) => true,
            Lookup::Missing => false,
        }
    }

    /// `true` iff the table knows nothing of the key.
    pub fn is_missing(&self) -> (r: bool)
        ensures
            r == (self is Missing),
            r == (self@ is None),
    {
        match self {
            Lookup::Missing => true,
            _ => false,
        }
    }
}

/// The payload of an entry, as a flush sees it.
#[derive(Debug, Clone, Copy, Eq, PartialEq)]
pub enum MemValue<'a> {
    /// A value.
    Put(&'a Value),
    /// A delete.
    Tombstone,
}

impl<'a> View for MemValue<'a> {
    type V = Option<Seq<u8>>;

    open spec fn view(&self) -> Option<Seq<u8>> {
        match self {
            MemValue::Put(value) => Some(value@),
            MemValue::Tombstone => None,
        }
    }
}

/// An entry of the ordered listing, tombstones included.
pub struct IterItem<'a> {
    key: Key,
    entry: Entry<'a, Vec<u8>, Record>,
}

impl<'a> View for IterItem<'a> {
    type V = Row;

    closed spec fn view(&self) -> Row {
        entry_row(self.entry)
    }
}

impl<'a> IterItem<'a> {
    #[verifier::type_invariant]
    spec fn inv(self) -> bool {
        self.key@ == self@.0
    }

    /// The key.
    pub fn key(&self) -> (r: &Key)
        ensures
            r@ == self@.0,
    {
        proof {
            use_type_invariant(self);
        }
        &self.key
    }

    /// The number of the write.
    pub fn seq(&self) -> (r: SeqNum)
        ensures
            r@ == self@.1.0,
    {
        entry_record(&self.entry).seq
    }

    /// The value, or that the write was a delete.
    pub fn mem_value(&self) -> (r: MemValue<'_>)
        ensures
            r@ == self@.1.1,
    {
        let record = entry_record(&self.entry);
        if record.tombstone {
            MemValue::Tombstone
        } else {
            MemValue::Put(&record.value)
        }
    }
}

/// The rows of a listing.
pub open spec fn item_rows(items: Seq<IterItem<'_>>) -> Seq<Row> {
    Seq::new(items.len(), |i: int| items[i]@)
}

// ---------------------------------------------------------------------------
// The size of a table
// ---------------------------------------------------------------------------

/// The bytes counted for all entries of `m`.
pub open spec fn total_size(m: Contents) -> nat
    decreases m.dom().len(),
    when m.dom().finite()
{
    if m.dom().len() == 0 {
        0
    } else {
        let key = m.dom().choose();
        entry_size(key, m[key]) + total_size(m.remove(key))
    }
}

/// Taking one entry out takes its bytes out.
pub proof fn lemma_total_size_remove(m: Contents, key: Seq<u8>)
    requires
        m.dom().finite(),
        m.contains_key(key),
    ensures
        total_size(m) == entry_size(key, m[key]) + total_size(m.remove(key)),
    decreases m.dom().len(),
{
    let first = m.dom().choose();
    assert(m.dom().contains(first));
    if first != key {
        let m1 = m.remove(first);
        assert(m1.contains_key(key));
        lemma_total_size_remove(m1, key);
        let m2 = m.remove(key);
        assert(m2.contains_key(first));
        assert(m2.dom().len() < m.dom().len());
        lemma_total_size_remove(m2, first);
        assert(m1.remove(key) =~= m2.remove(first));
    }
}

/// Storing a version of a key replaces the bytes of the version before.
pub proof fn lemma_total_size_insert(m: Contents, key: Seq<u8>, version: Version)
    requires
        m.dom().finite(),
    ensures
        m.insert(key, version).dom().finite(),
        m.contains_key(key) ==> total_size(m.insert(key, version)) + entry_size(key, m[key])
            == total_size(m) + entry_size(key, version),
        !m.contains_key(key) ==> total_size(m.insert(key, version)) == total_size(m) + entry_size(
            key,
            version,
        ),
{
    let m2 = m.insert(key, version);
    lemma_total_size_remove(m2, key);
    if m.contains_key(key) {
        lemma_total_size_remove(m, key);
        assert(m2.remove(key) =~= m.remove(key));
    } else {
        assert(m2.remove(key) =~= m);
    }
}

// ---------------------------------------------------------------------------
// The table
// ---------------------------------------------------------------------------

/// The table in memory. Being full is a signal; writes are still accepted.
pub struct MemTable {
    map: SkipMap<Vec<u8>, Record>,
    capacity_bytes: usize,
    approx_bytes: usize,
    exact: Ghost<bool>,
}

impl View for MemTable {
    type V = Contents;

    closed spec fn view(&self) -> Contents {
        skip_contents(self.map)
    }
}

/// What the size counter shows after `row` is stored where `before` was.
pub open spec fn counted(counter: int, before: Option<Version>, row: Row) -> int {
    let old_size = match before {
        Some(version) => capped(entry_size(row.0, version) as int),
        None => 0,
    };
    let rest = if counter >= old_size {
        counter - old_size
    } else {
        0
    };
    capped(rest + capped(entry_size(row.0, row.1) as int))
}

/// The size counter of a table in memory to which `rows` were applied.
pub open spec fn size_after(rows: Seq<Row>) -> int
    decreases rows.len(),
{
    if rows.len() == 0 {
        0
    } else {
        let mem = applied_all(Contents::empty(), rows.drop_last());
        let size = size_after(rows.drop_last());
        if supersedes(mem, rows.last()) {
            counted(size, stored(mem, rows.last().0), rows.last())
        } else {
            size
        }
    }
}

impl MemTable {
    /// No key is empty, the size counter never exceeds the true size, and it is the
    /// true size unless that was once beyond a machine word.
    pub closed spec fn wf(self) -> bool {
        &&& self@.dom().finite()
        &&& forall|key: Seq<u8>| #[trigger] self@.contains_key(key) ==> key.len() > 0
        &&& self.approx_bytes <= total_size(self@)
        &&& self.exact@ ==> self.approx_bytes == total_size(self@)
    }

    /// The true size has never been beyond a machine word.
    pub closed spec fn spec_exact(self) -> bool {
        self.exact@
    }

    /// The threshold at which the table is full.
    pub closed spec fn spec_capacity(self) -> usize {
        self.capacity_bytes
    }

    /// The size counter.
    pub closed spec fn spec_approx(self) -> usize {
        self.approx_bytes
    }

    /// What being well-formed means: there are finitely many keys, none of them is
    /// empty, and the size counter is a lower bound, which is exact unless the true
    /// size was once beyond a machine word.
    pub proof fn lemma_wf(self)
        requires
            self.wf(),
        ensures
            self@.dom().finite(),
            forall|key: Seq<u8>| #[trigger] self@.contains_key(key) ==> key.len() > 0,
            self.spec_approx() <= total_size(self@),
            self.spec_exact() ==> self.spec_approx() == total_size(self@),
    {
    }

    /// An empty table that is full at `capacity_bytes`.
    pub fn new(capacity_bytes: usize) -> (r: Self)
        ensures
            r.wf(),
            r@ == Contents::empty(),
            r.spec_capacity() == capacity_bytes,
            r.spec_approx() == 0,
            r.spec_exact(),
    {
        MemTable { map: skip_new(), capacity_bytes, approx_bytes: 0, exact: Ghost(true) }
    }

    /// The threshold given at construction.
    pub fn capacity(&self) -> (r: usize)
        ensures
            r == self.spec_capacity(),
    {
        self.capacity_bytes
    }

    /// The size counter: key, value and overhead of each entry.
    pub fn approx_bytes(&self) -> (r: usize)
        ensures
            r == self.spec_approx(),
            self.wf() && self.spec_exact() ==> r == total_size(self@),
            self.wf() && self.spec_exact() ==> r == listed_bytes(listing(self@)),
    {
        proof {
            if self.wf() {
                law_size_is_listed_bytes(self@);
            }
        }
        self.approx_bytes
    }

    /// `true` iff the size counter has reached the capacity.
    pub fn is_full(&self) -> (r: bool)
        ensures
            r == (self.spec_approx() >= self.spec_capacity()),
            self.wf() && self.spec_exact() ==> r == (listed_bytes(listing(self@))
                >= self.spec_capacity()),
    {
        proof {
            if self.wf() {
                law_size_is_listed_bytes(self@);
            }
        }
        self.approx_bytes >= self.capacity_bytes
    }

    /// The number of keys, deleted ones included.
    pub fn len(&self) -> (r: usize)
        ensures
            r == self@.dom().len(),
    {
        skip_len(&self.map)
    }

    /// `true` iff there are no keys.
    pub fn is_empty(&self) -> (r: bool)
        ensures
            r == (self@ == Contents::empty()),
    {
        skip_is_empty(&self.map)
    }

    /// Stores a value, unless a newer write of the key is there; `true` iff stored.
    pub fn put(&mut self, key: Key, value: Value, seq: SeqNum) -> (r: bool)
        requires
            old(self).wf(),
        ensures
            final(self).wf(),
            r == supersedes(old(self)@, (key@, (seq@, Some(value@)))),
            final(self)@ == applied(old(self)@, (key@, (seq@, Some(value@)))),
            r <==> (!old(self)@.contains_key(key@) || old(self)@[key@].0 <= seq@),
            final(self)@ == if r {
                old(self)@.insert(key@, (seq@, Some(value@)))
            } else {
                old(self)@
            },
            final(self).spec_capacity() == old(self).spec_capacity(),
            final(self).spec_exact() == (old(self).spec_exact() && total_size(final(self)@)
                <= usize::MAX),
            final(self).spec_approx() == if r {
                counted(
                    old(self).spec_approx() as int,
                    stored(old(self)@, key@),
                    (key@, (seq@, Some(value@))),
                )
            } else {
                old(self).spec_approx() as int
            },
    {
        self.apply(key, Record { seq, tombstone: false, value })
    }

    /// Stores a tombstone, unless a newer write of the key is there; `true` iff
    /// stored. A key that was never written gets one too.
    pub fn delete(&mut self, key: Key, seq: SeqNum) -> (r: bool)
        requires
            old(self).wf(),
        ensures
            final(self).wf(),
            r == supersedes(old(self)@, (key@, (seq@, None))),
            final(self)@ == applied(old(self)@, (key@, (seq@, None))),
            r <==> (!old(self)@.contains_key(key@) || old(self)@[key@].0 <= seq@),
            final(self)@ == if r {
                old(self)@.insert(key@, (seq@, None))
            } else {
                old(self)@
            },
            final(self).spec_capacity() == old(self).spec_capacity(),
            final(self).spec_exact() == (old(self).spec_exact() && total_size(final(self)@)
                <= usize::MAX),
            final(self).spec_approx() == if r {
                counted(
                    old(self).spec_approx() as int,
                    stored(old(self)@, key@),
                    (key@, (seq@, None)),
                )
            } else {
                old(self).spec_approx() as int
            },
    {
        self.apply(key, Record { seq, tombstone: true, value: Value::default() })
    }

    /// What the table knows of `key`.
    pub fn get(&self, key: &[u8]) -> (r: Lookup<'_>)
        requires
            self.wf(),
        ensures
            r@ == stored(self@, key@),
            r is Missing <==> !self@.contains_key(key@),
            r matches Lookup::Alive(pinned) ==> pinned@ == (key@, self@[key@]),
            r matches Lookup::Deleted(seq) ==> self@[key@] == (seq@, None::<Seq<u8>>),
            r is Alive <==> self@.contains_key(key@) && self@[key@].1 is Some,
    {
        match skip_get(&self.map, key) {
            None => Lookup::Missing,
            Some(entry) => {
                let record = entry_record(&entry);
                if record.tombstone {
                    Lookup::Deleted(record.seq)
                } else {
                    match Key::new(key) {
                        Ok(key) => Lookup::Alive(PinnedValue { key, entry }),
                        Err(_) => Lookup::Missing,
                    }
                }
            },
        }
    }

    /// The entries in the order of the keys, tombstones included.
    pub fn iter(&self) -> (items: Vec<IterItem<'_>>)
        requires
            self.wf(),
        ensures
            lists(item_rows(items@), self@),
            forall|i: int, j: int|
                0 <= i < j < items@.len() ==> lex_lt((#[trigger] items@[i])@.0, (
                #[trigger] items@[j])@.0),
            forall|i: int|
                0 <= i < items@.len() ==> self@.contains_key((#[trigger] items@[i])@.0)
                    && self@[items@[i]@.0] == items@[i]@.1,
            forall|key: Seq<u8>| #[trigger]
                self@.contains_key(key) ==> exists|i: int|
                    0 <= i < items@.len() && (#[trigger] items@[i])@.0 == key,
    {
        let mut entries = skip_iter(&self.map);
        let ghost rows = entry_rows(entries@);
        let mut reversed: Vec<IterItem<'_>> = Vec::new();
        let mut items: Vec<IterItem<'_>> = Vec::new();
        while entries.len() > 0
            invariant
                self.wf(),
                lists(rows, self@),
                entries@.len() + reversed@.len() == rows.len(),
                forall|i: int| 0 <= i < entries@.len() ==> entry_row(#[trigger] entries@[i]) == rows[i],
                forall|i: int|
                    0 <= i < reversed@.len() ==> (#[trigger] reversed@[i])@ == rows[rows.len() - 1 - i],
            decreases entries@.len(),
        {
            if let Some(entry) = entries.pop() {
                let ghost row = rows[entries@.len() as int];
                assert(entry_row(entry) == row);
                assert(self@.contains_key(row.0));
                if let Ok(key) = Key::new(entry_key(&entry)) {
                    reversed.push(IterItem { key, entry });
                }
            }
        }
        while reversed.len() > 0
            invariant
                reversed@.len() + items@.len() == rows.len(),
                forall|i: int| 0 <= i < items@.len() ==> (#[trigger] items@[i])@ == rows[i],
                forall|i: int|
                    0 <= i < reversed@.len() ==> (#[trigger] reversed@[i])@ == rows[rows.len() - 1 - i],
            decreases reversed@.len(),
        {
            if let Some(item) = reversed.pop() {
                items.push(item);
            }
        }
        assert(item_rows(items@) =~= rows);
        proof {
            assert forall|i: int, j: int| 0 <= i < j < items@.len() implies lex_lt(
                (#[trigger] items@[i])@.0,
                (#[trigger] items@[j])@.0,
            ) by {
                assert(lex_lt(rows[i].0, rows[j].0));
            }
            assert forall|i: int| 0 <= i < items@.len() implies self@.contains_key(
                (#[trigger] items@[i])@.0,
            ) && self@[items@[i]@.0] == items@[i]@.1 by {
                assert(self@.contains_key(rows[i].0));
            }
            assert forall|key: Seq<u8>| #[trigger] self@.contains_key(key) implies exists|i: int|
                0 <= i < items@.len() && (#[trigger] items@[i])@.0 == key by {
                let i = choose|i: int| 0 <= i < rows.len() && #[trigger] rows[i].0 == key;
                assert(items@[i]@.0 == key);
            }
        }
        items
    }

    /// Stores `record` under `key` unless a newer one is there, and keeps the size
    /// counter.
    fn apply(&mut self, key: Key, record: Record) -> (r: bool)
        requires
            old(self).wf(),
        ensures
            final(self).wf(),
            r == supersedes(old(self)@, (key@, record.version())),
            final(self)@ == applied(old(self)@, (key@, record.version())),
            final(self).spec_capacity() == old(self).spec_capacity(),
            final(self).spec_exact() == (old(self).spec_exact() && total_size(final(self)@)
                <= usize::MAX),
            final(self).spec_approx() == if r {
                counted(
                    old(self).spec_approx() as int,
                    stored(old(self)@, key@),
                    (key@, record.version()),
                )
            } else {
                old(self).spec_approx() as int
            },
    {
        let ghost row = (key@, record.version());
        proof {
            use_type_invariant(&key);
            lemma_total_size_insert(self@, key@, record.version());
            if self@.contains_key(key@) {
                lemma_total_size_remove(self@, key@);
            }
        }
        let new_size: usize = record.encoded_size(key.as_bytes());
        let old_size: usize = match skip_get(&self.map, key.as_bytes()) {
            Some(entry) => entry_record(&entry).encoded_size(entry_key(&entry)),
            None => 0,
        };
        let seq: SeqNum = record.seq;
        let installed = skip_insert(&mut self.map, key.into(), record);
        let applied = installed.get() == seq.get();
        if applied {
            self.approx_bytes = self.approx_bytes.saturating_sub(old_size).saturating_add(new_size);
        }
        proof {
            if self.exact@ && total_size(self@) <= usize::MAX && applied {
                law_counter_is_exact(old(self)@, row);
            }
            self.exact@ = self.exact@ && total_size(self@) <= usize::MAX;
        }
        applied
    }
}

// ---------------------------------------------------------------------------
// Laws
// ---------------------------------------------------------------------------

/// As long as the true size fits a machine word, the counter is exact.
pub proof fn law_counter_is_exact(m: Contents, row: Row)
    requires
        m.dom().finite(),
        supersedes(m, row),
        total_size(m) <= usize::MAX,
        total_size(applied(m, row)) <= usize::MAX,
    ensures
        counted(total_size(m) as int, stored(m, row.0), row) == total_size(applied(m, row)),
{
    lemma_total_size_insert(m, row.0, row.1);
    if m.contains_key(row.0) {
        lemma_total_size_remove(m, row.0);
    }
}

/// After any series of writes the counter is exact, as long as the true size stayed
/// within a machine word all along.
pub proof fn law_counter_is_exact_over_writes(rows: Seq<Row>)
    requires
        forall|i: int|
            0 <= i <= rows.len() ==> total_size(
                applied_all(Contents::empty(), #[trigger] rows.take(i)),
            ) <= usize::MAX,
    ensures
        applied_all(Contents::empty(), rows).dom().finite(),
        size_after(rows) == total_size(applied_all(Contents::empty(), rows)),
    decreases rows.len(),
{
    if rows.len() > 0 {
        let front = rows.drop_last();
        assert forall|i: int| 0 <= i <= front.len() implies total_size(
            applied_all(Contents::empty(), #[trigger] front.take(i)),
        ) <= usize::MAX by {
            assert(front.take(i) =~= rows.take(i));
        }
        law_counter_is_exact_over_writes(front);
        assert(rows.take(front.len() as int) =~= front);
        assert(rows.take(rows.len() as int) =~= rows);
        let before = applied_all(Contents::empty(), front);
        if supersedes(before, rows.last()) {
            law_counter_is_exact(before, rows.last());
        }
    }
}

/// The bytes counted for all of `rows`.
pub open spec fn rows_size(rows: Seq<Row>) -> nat
    decreases rows.len(),
{
    if rows.len() == 0 {
        0
    } else {
        rows_size(rows.drop_last()) + entry_size(rows.last().0, rows.last().1)
    }
}

/// The true size of a table is the sum over its listing: key, value if there is
/// one, and overhead of each row.
pub proof fn law_size_is_sum_of_rows(rows: Seq<Row>, m: Contents)
    requires
        m.dom().finite(),
        lists(rows, m),
    ensures
        total_size(m) == rows_size(rows),
    decreases rows.len(),
{
    if rows.len() == 0 {
        assert forall|key: Seq<u8>| !m.dom().contains(key) by {
            assert(!m.contains_key(key));
        }
        assert(m.dom() =~= Set::empty());
    } else {
        let front = rows.drop_last();
        let last = rows[rows.len() - 1];
        let rest = m.remove(last.0);
        assert(m.contains_key(last.0));
        assert(forall|i: int| 0 <= i < front.len() ==> #[trigger] front[i] == rows[i]);
        assert forall|i: int| 0 <= i < front.len() implies rest.contains_key(#[trigger] front[i].0)
            && rest[front[i].0] == front[i].1 by {
            assert(m.contains_key(rows[i].0));
            assert(lex_lt(rows[i].0, last.0));
            lemma_lex_irreflexive(last.0);
        }
        assert forall|key: Seq<u8>| #[trigger] rest.contains_key(key) implies exists|i: int|
            0 <= i < front.len() && #[trigger] front[i].0 == key by {
            assert(m.contains_key(key));
            let i = choose|i: int| 0 <= i < rows.len() && #[trigger] rows[i].0 == key;
            assert(front[i].0 == key);
        }
        law_size_is_sum_of_rows(front, rest);
        lemma_total_size_remove(m, last.0);
    }
}

/// A write that is not older than what is there is what a lookup finds; a
/// tombstone is found as a tombstone.
pub proof fn law_write_then_read(m: Contents, row: Row)
    requires
        supersedes(m, row),
    ensures
        stored(applied(m, row), row.0) == Some(row.1),
{
}

/// A write with an older number changes nothing.
pub proof fn law_stale_write_is_ignored(m: Contents, row: Row)
    requires
        m.contains_key(row.0),
        row.1.0 < m[row.0].0,
    ensures
        applied(m, row) == m,
{
}

/// A write touches no other key.
pub proof fn law_write_is_local(m: Contents, row: Row, other: Seq<u8>)
    requires
        other != row.0,
    ensures
        stored(applied(m, row), other) == stored(m, other),
{
}

/// A delete after a write, and a write after a delete, are each found: whichever
/// of two writes of a key has the larger number, or comes second at the same
/// number, decides.
pub proof fn law_last_write_wins(m: Contents, key: Seq<u8>, v1: Version, v2: Version)
    requires
        supersedes(m, (key, v1)),
        v1.0 <= v2.0,
    ensures
        stored(applied(applied(m, (key, v1)), (key, v2)), key) == Some(v2),
{
}

} // verus!
