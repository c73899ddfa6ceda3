use nvme_state_db::{Error, Key, Lookup, MemTable, SeqNum, Value};
use std::borrow::Borrow;
use std::convert::TryFrom;

#[test]
fn public_api_reexports_compile() {
    let key = Key::new(b"k").expect("clave");
    let value = Value::new(b"v");
    let seq = SeqNum::zero();
    assert_eq!(key.as_bytes(), b"k");
    assert_eq!(value.as_bytes(), b"v");
    assert_eq!(seq.get(), 0);
    let _err: Error = Error::EmptyKey;
    let table = MemTable::new(64);
    assert!(table.get(b"k").is_missing());
    let _lookup: Lookup<'_> = Lookup::Missing;
}

#[test]
fn key_rejects_empty_slice() {
    let err = Key::new(&[]).expect_err("una clave vacía debe fallar");
    assert!(matches!(err, Error::EmptyKey));
}

#[test]
fn key_rejects_empty_vec() {
    let err = Key::from_vec(Vec::new()).expect_err("Vec vacío debe fallar");
    assert!(matches!(err, Error::EmptyKey));
}

#[test]
fn key_accepts_non_empty_bytes() {
    let key = Key::new(b"account/0xabc").expect("clave válida");
    assert_eq!(key.as_bytes(), b"account/0xabc");
    assert_eq!(key.len(), 13);
    assert!(!key.is_empty());
}

#[test]
fn key_from_vec_takes_ownership_without_changing_bytes() {
    let raw = vec![0x00, 0xff];
    let key = Key::from_vec(raw).expect("clave válida");
    assert_eq!(key.as_bytes(), &[0x00, 0xff]);
    let back: Vec<u8> = key.into();
    assert_eq!(back, vec![0x00, 0xff]);
}

#[test]
fn key_try_from_vec() {
    assert!(Key::try_from(Vec::<u8>::new()).is_err());
    assert!(Key::try_from(vec![1_u8]).is_ok());
}

#[test]
fn key_ord_is_lexicographic() {
    let a = Key::new(b"aa").expect("a");
    let b = Key::new(b"ab").expect("b");
    let c = Key::new(b"b").expect("c");
    assert!(a < b);
    assert!(b < c);
    assert!(a < c);
}

#[test]
fn key_order_puts_prefixes_first() {
    let short = Key::new(b"ab").expect("short");
    let long = Key::new(b"ab\x00").expect("long");
    assert!(short < long);
    assert!(!(long < short));
    assert!(short == short.clone());
    assert!(short != long);
    let mut keys = vec![long.clone(), short.clone()];
    keys.sort();
    assert_eq!(keys, vec![short, long]);
}

#[test]
fn key_borrow_matches_as_bytes() {
    let key = Key::new(b"k").expect("k");
    let borrowed: &[u8] = key.borrow();
    assert_eq!(borrowed, key.as_bytes());
    let as_ref: &[u8] = key.as_ref();
    assert_eq!(as_ref, b"k");
}

#[test]
fn value_allows_empty() {
    let empty = Value::new(&[]);
    assert!(empty.is_empty());
    assert_eq!(empty.len(), 0);
    assert_eq!(Value::default().as_bytes(), b"");
}

#[test]
fn value_round_trip_vec() {
    let value = Value::from_vec(vec![1, 2, 3]);
    assert_eq!(value.as_bytes(), &[1, 2, 3]);
    let raw: Vec<u8> = value.into();
    assert_eq!(raw, vec![1, 2, 3]);
}

#[test]
fn value_from_vec_conversion() {
    let value = Value::from(vec![7, 8]);
    assert_eq!(value.as_ref(), &[7, 8]);
    assert!(value == Value::new(&[7, 8]));
    assert!(value != Value::new(&[7]));
}

#[test]
fn empty_value_is_not_a_tombstone_type() {
    let _stored: Value = Value::new(&[]);
    fn takes_value(_: &Value) {}
    takes_value(&Value::default());
}

#[test]
fn seqnum_starts_at_zero_and_increments() {
    let zero = SeqNum::zero();
    assert_eq!(zero.get(), 0);
    let one = zero.next().expect("0 + 1 cabe en u64");
    assert_eq!(one.get(), 1);
    assert!(zero < one);
}

#[test]
fn seqnum_new_wraps_raw_integer() {
    let seq = SeqNum::new(42);
    assert_eq!(u64::from(seq), 42);
}

#[test]
fn seqnum_overflow_is_an_error() {
    let max = SeqNum::new(u64::MAX);
    let err = max.next().expect_err("MAX no puede incrementarse");
    assert!(matches!(err, Error::SequenceOverflow));
}
