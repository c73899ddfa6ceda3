//! Domain types: [`Key`], [`Value`] and [`SeqNum`], and the ghost vocabulary in
//! which the layers above speak of what is stored.

use crate::bytes::{
    bytes_equal, bytes_less, lemma_lex_asymmetric, lemma_lex_irreflexive, lemma_lex_total,
    lemma_lex_transitive, lex_lt,
};
use crate::error::Error;
use std::borrow::Borrow;
use vstd::prelude::*;

verus! {

/// What is stored of a key: the sequence number of the write and, unless the
/// write was a delete, the value.
pub type Version = (u64, Option<Seq<u8>>);

/// A write: the key and the version that it stores.
pub type Row = (Seq<u8>, Version);

/// The bytes that a record stores of `value`.
pub open spec fn stored_value(value: Option<Seq<u8>>) -> Seq<u8> {
    match value {
        Some(v) => v,
        None => seq![],
    }
}

/// The newest version of each key of a table.
pub type Contents = Map<Seq<u8>, Version>;

/// The keys of `rows` increase strictly.
pub open spec fn sorted_rows(rows: Seq<Row>) -> bool {
    forall|i: int, j: int| 0 <= i < j < rows.len() ==> lex_lt(#[trigger] rows[i].0, #[trigger] rows[j].0)
}

/// `rows` holds exactly what `m` holds, in the order of the keys.
pub open spec fn lists(rows: Seq<Row>, m: Contents) -> bool {
    &&& sorted_rows(rows)
    &&& forall|i: int|
        0 <= i < rows.len() ==> m.contains_key(#[trigger] rows[i].0) && m[rows[i].0] == rows[i].1
    &&& forall|key: Seq<u8>| #[trigger]
        m.contains_key(key) ==> exists|i: int| 0 <= i < rows.len() && #[trigger] rows[i].0 == key
}

/// The rows of a table, in the order of the keys.
pub open spec fn listing(m: Contents) -> Seq<Row> {
    choose|rows: Seq<Row>| lists(rows, m)
}

/// The version of `key` in `rows`, if there is one.
pub open spec fn find_in(rows: Seq<Row>, key: Seq<u8>) -> Option<Version>
    decreases rows.len(),
{
    if rows.len() == 0 {
        None
    } else if rows.last().0 == key {
        Some(rows.last().1)
    } else {
        find_in(rows.drop_last(), key)
    }
}

/// What `m` stores of `key`, if it stores anything.
pub open spec fn stored(m: Contents, key: Seq<u8>) -> Option<Version> {
    if m.contains_key(key) {
        Some(m[key])
    } else {
        None
    }
}

/// `row` is not older than what `m` stores of its key.
pub open spec fn supersedes(m: Contents, row: Row) -> bool {
    m.contains_key(row.0) ==> row.1.0 >= m[row.0].0
}

/// `m` after the write `row`: an older write changes nothing.
pub open spec fn applied(m: Contents, row: Row) -> Contents {
    if supersedes(m, row) {
        m.insert(row.0, row.1)
    } else {
        m
    }
}

/// `m` after the writes `rows`, first to last.
pub open spec fn applied_all(m: Contents, rows: Seq<Row>) -> Contents
    decreases rows.len(),
{
    if rows.len() == 0 {
        m
    } else {
        applied(applied_all(m, rows.drop_last()), rows.last())
    }
}

/// A state key: a non-empty byte string, ordered lexicographically.
#[derive(Debug, Eq, Ord, Hash)]
pub struct Key(Vec<u8>);

impl View for Key {
    type V = Seq<u8>;

    closed spec fn view(&self) -> Seq<u8> {
        self.0@
    }
}

impl Key {
    /// A key is never empty.
    #[verifier::type_invariant]
    pub open spec fn inv(self) -> bool {
        self@.len() > 0
    }

    /// A key with a copy of `bytes`; [`Error::EmptyKey`] if there are none.
    pub fn new(bytes: &[u8]) -> (r: Result<Self, Error>)
        ensures
            r is Ok <==> bytes@.len() > 0,
            r matches Ok(key) ==> key@ == bytes@,
            r matches Err(e) ==> e == Error::EmptyKey,
    {
        Self::from_vec(vstd::slice::slice_to_vec(bytes))
    }

    /// A key that takes over `bytes`; [`Error::EmptyKey`] if there are none.
    pub fn from_vec(bytes: Vec<u8>) -> (r: Result<Self, Error>)
        ensures
            r is Ok <==> bytes@.len() > 0,
            r matches Ok(key) ==> key@ == bytes@,
            r matches Err(e) ==> e == Error::EmptyKey,
    {
        if bytes.is_empty() {
            return Err(Error::EmptyKey);
        }
        Ok(Key(bytes))
    }

    /// The bytes, not copied.
    pub fn as_bytes(&self) -> (r: &[u8])
        ensures
            r@ == self@,
    {
        self.0.as_slice()
    }

    /// The number of bytes; never 0.
    pub fn len(&self) -> (r: usize)
        ensures
            r == self@.len(),
            r >= 1,
    {
        proof {
            use_type_invariant(self);
        }
        self.0.len()
    }

    /// Always `false`: there is no empty key.
    pub fn is_empty(&self) -> (r: bool)
        ensures
            r == false,
    {
        proof {
            use_type_invariant(self);
        }
        self.0.is_empty()
    }
}

impl Clone for Key {
    fn clone(&self) -> (r: Self)
        ensures
            r@ == self@,
    {
        proof {
            use_type_invariant(self);
        }
        Key(self.0.clone())
    }
}

impl PartialEq for Key {
    fn eq(&self, other: &Key) -> (r: bool) {
        bytes_equal(self.as_bytes(), other.as_bytes())
    }
}

impl vstd::std_specs::cmp::PartialEqSpecImpl for Key {
    open spec fn obeys_eq_spec() -> bool {
        true
    }

    open spec fn eq_spec(&self, other: &Key) -> bool {
        self@ == other@
    }
}

impl PartialOrd for Key {
    fn partial_cmp(&self, other: &Key) -> (r: Option<core::cmp::Ordering>) {
        proof {
            lemma_lex_total(self@, other@);
        }
        if bytes_less(self.as_bytes(), other.as_bytes()) {
            Some(core::cmp::Ordering::Less)
        } else if bytes_less(other.as_bytes(), self.as_bytes()) {
            Some(core::cmp::Ordering::Greater)
        } else {
            Some(core::cmp::Ordering::Equal)
        }
    }
}

impl vstd::std_specs::cmp::PartialOrdSpecImpl for Key {
    open spec fn obeys_partial_cmp_spec() -> bool {
        true
    }

    open spec fn partial_cmp_spec(&self, other: &Key) -> Option<core::cmp::Ordering> {
        if lex_lt(self@, other@) {
            Some(core::cmp::Ordering::Less)
        } else if self@ == other@ {
            Some(core::cmp::Ordering::Equal)
        } else {
            Some(core::cmp::Ordering::Greater)
        }
    }
}

impl AsRef<[u8]> for Key {
    fn as_ref(&self) -> (r: &[u8])
        ensures
            r@ == self@,
    {
        self.as_bytes()
    }
}

impl Borrow<[u8]> for Key {
    fn borrow(&self) -> (r: &[u8])
        ensures
            <[u8] as View>::view(r) == self@,
    {
        self.as_bytes()
    }
}

impl TryFrom<Vec<u8>> for Key {
    type Error = Error;

    fn try_from(bytes: Vec<u8>) -> (r: Result<Self, Error>)
        ensures
            r is Ok <==> bytes@.len() > 0,
            r matches Ok(key) ==> key@ == bytes@,
            r matches Err(e) ==> e == Error::EmptyKey,
    {
        Self::from_vec(bytes)
    }
}

impl vstd::std_specs::convert::TryFromSpecImpl<Vec<u8>> for Key {
    open spec fn obeys_try_from_spec() -> bool {
        false
    }

    open spec fn try_from_spec(bytes: Vec<u8>) -> Result<Self, Error> {
        arbitrary()
    }
}

impl From<Key> for Vec<u8> {
    fn from(key: Key) -> (r: Vec<u8>)
        ensures
            r@ == key@,
    {
        key.0
    }
}

impl vstd::std_specs::convert::FromSpecImpl<Key> for Vec<u8> {
    open spec fn obeys_from_spec() -> bool {
        false
    }

    open spec fn from_spec(key: Key) -> Vec<u8> {
        arbitrary()
    }
}

/// A state value: a byte string, possibly empty. An empty value is not a delete.
#[derive(Debug, Eq, Hash)]
pub struct Value(Vec<u8>);

impl View for Value {
    type V = Seq<u8>;

    closed spec fn view(&self) -> Seq<u8> {
        self.0@
    }
}

impl Value {
    /// A value with a copy of `bytes`.
    pub fn new(bytes: &[u8]) -> (r: Self)
        ensures
            r@ == bytes@,
    {
        Value(vstd::slice::slice_to_vec(bytes))
    }

    /// A value that takes over `bytes`.
    pub fn from_vec(bytes: Vec<u8>) -> (r: Self)
        ensures
            r@ == bytes@,
    {
        Value(bytes)
    }

    /// The bytes, not copied.
    pub fn as_bytes(&self) -> (r: &[u8])
        ensures
            r@ == self@,
    {
        self.0.as_slice()
    }

    /// The number of bytes, 0 included.
    pub fn len(&self) -> (r: usize)
        ensures
            r == self@.len(),
    {
        self.0.len()
    }

    /// `true` iff there are no bytes.
    pub fn is_empty(&self) -> (r: bool)
        ensures
            r == (self@.len() == 0),
    {
        self.0.is_empty()
    }
}

impl Clone for Value {
    fn clone(&self) -> (r: Self)
        ensures
            r@ == self@,
    {
        Value(self.0.clone())
    }
}

impl PartialEq for Value {
    fn eq(&self, other: &Value) -> (r: bool) {
        bytes_equal(self.as_bytes(), other.as_bytes())
    }
}

impl vstd::std_specs::cmp::PartialEqSpecImpl for Value {
    open spec fn obeys_eq_spec() -> bool {
        true
    }

    open spec fn eq_spec(&self, other: &Value) -> bool {
        self@ == other@
    }
}

impl Default for Value {
    fn default() -> (r: Self)
        ensures
            r@ == Seq::<u8>::empty(),
    {
        Value(Vec::new())
    }
}

impl AsRef<[u8]> for Value {
    fn as_ref(&self) -> (r: &[u8])
        ensures
            r@ == self@,
    {
        self.as_bytes()
    }
}

impl From<Vec<u8>> for Value {
    fn from(bytes: Vec<u8>) -> (r: Self)
        ensures
            r@ == bytes@,
    {
        Self::from_vec(bytes)
    }
}

impl vstd::std_specs::convert::FromSpecImpl<Vec<u8>> for Value {
    open spec fn obeys_from_spec() -> bool {
        false
    }

    open spec fn from_spec(bytes: Vec<u8>) -> Self {
        arbitrary()
    }
}

impl From<Value> for Vec<u8> {
    fn from(value: Value) -> (r: Vec<u8>)
        ensures
            r@ == value@,
    {
        value.0
    }
}

impl vstd::std_specs::convert::FromSpecImpl<Value> for Vec<u8> {
    open spec fn obeys_from_spec() -> bool {
        false
    }

    open spec fn from_spec(value: Value) -> Vec<u8> {
        arbitrary()
    }
}

/// The number of a write in the order of writes.
#[derive(Clone, Copy, Debug, PartialEq, Eq, Structural, PartialOrd, Ord, Hash)]
pub struct SeqNum(u64);

impl View for SeqNum {
    type V = u64;

    closed spec fn view(&self) -> u64 {
        self.0
    }
}

impl SeqNum {
    /// The number before the first write.
    pub fn zero() -> (r: Self)
        ensures
            r@ == 0,
    {
        SeqNum(0)
    }

    /// The sequence number `n`.
    pub fn new(n: u64) -> (r: Self)
        ensures
            r@ == n,
    {
        SeqNum(n)
    }

    /// The raw integer.
    pub fn get(self) -> (r: u64)
        ensures
            r == self@,
    {
        self.0
    }

    /// The number after this one; [`Error::SequenceOverflow`] after `u64::MAX`.
    pub fn next(self) -> (r: Result<Self, Error>)
        ensures
            r is Ok <==> self@ < u64::MAX,
            r matches Ok(next) ==> next@ == self@ + 1,
            r matches Err(e) ==> e == Error::SequenceOverflow,
    {
        match self.0.checked_add(1) {
            Some(n) => Ok(SeqNum(n)),
            None => Err(Error::SequenceOverflow),
        }
    }
}

impl From<SeqNum> for u64 {
    fn from(seq: SeqNum) -> (r: u64)
        ensures
            r == seq@,
    {
        seq.0
    }
}

impl vstd::std_specs::convert::FromSpecImpl<SeqNum> for u64 {
    open spec fn obeys_from_spec() -> bool {
        true
    }

    open spec fn from_spec(seq: SeqNum) -> u64 {
        seq@
    }
}

/// A table has only one listing.
pub proof fn law_listing_unique(rows: Seq<Row>, m: Contents)
    requires
        lists(rows, m),
    ensures
        listing(m) == rows,
{
    let other = listing(m);
    lemma_listing_prefix(rows, other, m, rows.len() as int);
    lemma_listing_prefix(other, rows, m, other.len() as int);
    assert(rows =~= other);
}

proof fn lemma_listing_prefix(a: Seq<Row>, b: Seq<Row>, m: Contents, k: int)
    requires
        lists(a, m),
        lists(b, m),
        0 <= k <= a.len(),
    ensures
        k <= b.len(),
        forall|i: int| 0 <= i < k ==> a[i] == b[i],
    decreases k,
{
    if k > 0 {
        let p = k - 1;
        lemma_listing_prefix(a, b, m, p);
        assert(m.contains_key(a[p].0));
        let j = choose|j: int| 0 <= j < b.len() && #[trigger] b[j].0 == a[p].0;
        lemma_lex_irreflexive(a[p].0);
        if j < p {
            assert(lex_lt(a[j].0, a[p].0));
        }
        assert(m.contains_key(b[p].0));
        let i = choose|i: int| 0 <= i < a.len() && #[trigger] a[i].0 == b[p].0;
        lemma_lex_irreflexive(b[p].0);
        if i < p {
            assert(lex_lt(b[i].0, b[p].0));
        }
        if j > p {
            assert(lex_lt(b[p].0, b[j].0));
            if i > p {
                lemma_lex_asymmetric(a[p].0, a[i].0);
            }
        }
    }
}

/// Every table of finitely many keys has a listing.
pub proof fn law_listing_exists(m: Contents)
    requires
        m.dom().finite(),
    ensures
        lists(listing(m), m),
    decreases m.dom().len(),
{
    if m.dom().len() == 0 {
        let none: Seq<Row> = seq![];
        assert forall|key: Seq<u8>| #[trigger] m.contains_key(key) implies false by {
            assert(m.dom().contains(key));
        }
        assert(lists(none, m));
    } else {
        let key = m.dom().choose();
        assert(m.dom().contains(key));
        let rest = m.remove(key);
        law_listing_exists(rest);
        let old_rows = listing(rest);
        assert forall|i: int| 0 <= i < old_rows.len() implies #[trigger] old_rows[i].0 != key by {
            assert(rest.contains_key(old_rows[i].0));
        }
        let p = lemma_insertion_point(old_rows, key);
        let rows = old_rows.take(p) + seq![(key, m[key])] + old_rows.skip(p);
        assert forall|i: int, j: int| 0 <= i < j < rows.len() implies lex_lt(
            #[trigger] rows[i].0,
            #[trigger] rows[j].0,
        ) by {
            let i0 = if i < p {
                i
            } else {
                i - 1
            };
            let j0 = if j < p {
                j
            } else {
                j - 1
            };
            if i != p {
                assert(rows[i] == old_rows[i0]);
            }
            if j != p {
                assert(rows[j] == old_rows[j0]);
            }
        }
        assert forall|i: int| 0 <= i < rows.len() implies m.contains_key(#[trigger] rows[i].0)
            && m[rows[i].0] == rows[i].1 by {
            if i != p {
                let i0 = if i < p {
                    i
                } else {
                    i - 1
                };
                assert(rows[i] == old_rows[i0]);
                assert(rest.contains_key(old_rows[i0].0));
            }
        }
        assert forall|other: Seq<u8>| #[trigger] m.contains_key(other) implies exists|i: int|
            0 <= i < rows.len() && #[trigger] rows[i].0 == other by {
            if other == key {
                assert(rows[p].0 == other);
            } else {
                assert(rest.contains_key(other));
                let i0 = choose|i: int| 0 <= i < old_rows.len() && #[trigger] old_rows[i].0 == other;
                let i = if i0 < p {
                    i0
                } else {
                    i0 + 1
                };
                assert(rows[i] == old_rows[i0]);
            }
        }
        assert(lists(rows, m));
    }
}

/// Where `key` belongs in sorted rows that do not hold it.
proof fn lemma_insertion_point(rows: Seq<Row>, key: Seq<u8>) -> (p: int)
    requires
        sorted_rows(rows),
        forall|i: int| 0 <= i < rows.len() ==> #[trigger] rows[i].0 != key,
    ensures
        0 <= p <= rows.len(),
        forall|i: int| 0 <= i < p ==> lex_lt(#[trigger] rows[i].0, key),
        forall|i: int| p <= i < rows.len() ==> lex_lt(key, #[trigger] rows[i].0),
    decreases rows.len(),
{
    if rows.len() == 0 {
        0
    } else {
        let front = rows.drop_last();
        let last = rows[rows.len() - 1].0;
        assert(forall|i: int| 0 <= i < front.len() ==> #[trigger] front[i] == rows[i]);
        lemma_lex_total(last, key);
        if lex_lt(last, key) {
            assert forall|i: int| 0 <= i < rows.len() implies lex_lt(#[trigger] rows[i].0, key) by {
                if i < rows.len() - 1 {
                    lemma_lex_transitive(rows[i].0, last, key);
                }
            }
            rows.len() as int
        } else {
            let p = lemma_insertion_point(front, key);
            assert forall|i: int| 0 <= i < p implies lex_lt(#[trigger] rows[i].0, key) by {
                assert(front[i] == rows[i]);
            }
            assert forall|i: int| p <= i < rows.len() implies lex_lt(key, #[trigger] rows[i].0) by {
                if i < rows.len() - 1 {
                    assert(front[i] == rows[i]);
                }
            }
            p
        }
    }
}

/// What a search in the listing finds is what the table stores.
pub proof fn law_find_in_listing(rows: Seq<Row>, m: Contents, key: Seq<u8>)
    requires
        lists(rows, m),
    ensures
        find_in(rows, key) == stored(m, key),
{
    lemma_find_in(rows, key);
    if m.contains_key(key) {
        let i = choose|i: int| 0 <= i < rows.len() && #[trigger] rows[i].0 == key;
        assert(rows[i].1 == m[key]);
    }
}

/// A search in sorted rows finds the version of the key, and nothing if no row
/// has the key.
pub proof fn lemma_find_in(rows: Seq<Row>, key: Seq<u8>)
    requires
        sorted_rows(rows),
    ensures
        forall|i: int|
            0 <= i < rows.len() && #[trigger] rows[i].0 == key ==> find_in(rows, key) == Some(
                rows[i].1,
            ),
        find_in(rows, key) is Some ==> exists|i: int|
            0 <= i < rows.len() && #[trigger] rows[i].0 == key,
    decreases rows.len(),
{
    if rows.len() > 0 {
        let front = rows.drop_last();
        assert(forall|i: int| 0 <= i < front.len() ==> #[trigger] front[i] == rows[i]);
        lemma_find_in(front, key);
        if rows.last().0 == key {
            assert forall|i: int| 0 <= i < rows.len() && #[trigger] rows[i].0 == key implies i
                == rows.len() - 1 by {
                lemma_lex_irreflexive(key);
            }
            assert(rows[rows.len() - 1].0 == key);
        } else {
            assert forall|i: int| 0 <= i < rows.len() && #[trigger] rows[i].0 == key implies find_in(
                rows,
                key,
            ) == Some(rows[i].1) by {
                assert(front[i] == rows[i]);
            }
        }
    }
}

} // verus!
