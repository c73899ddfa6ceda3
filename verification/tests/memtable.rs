use nvme_state_db::{Key, Lookup, MemTable, MemValue, SeqNum, Value};

fn key(bytes: &[u8]) -> Key {
    Key::new(bytes).expect("clave de test")
}

#[test]
fn empty_memtable_is_empty() {
    let table = MemTable::new(1024);
    assert!(table.is_empty());
    assert_eq!(table.len(), 0);
    assert_eq!(table.approx_bytes(), 0);
    assert!(!table.is_full());
    assert!(table.get(b"missing").is_missing());
}

#[test]
fn put_then_get_returns_same_bytes() {
    let mut table = MemTable::new(1024);
    assert!(table.put(key(b"k"), Value::new(b"v"), SeqNum::new(1)));
    let got = table.get(b"k");
    match got {
        Lookup::Alive(pinned) => {
            assert_eq!(pinned.value().as_bytes(), b"v");
            assert_eq!(pinned.seq(), SeqNum::new(1));
            assert_eq!(pinned.key().as_bytes(), b"k");
        }
        other => panic!(
            "esperado Alive, got deleted={} missing={}",
            other.is_deleted(),
            other.is_missing()
        ),
    }
}

#[test]
fn overwrite_replaces_value() {
    let mut table = MemTable::new(1024);
    table.put(key(b"k"), Value::new(b"old"), SeqNum::new(1));
    table.put(key(b"k"), Value::new(b"new"), SeqNum::new(2));
    assert_eq!(
        table.get(b"k").value().map(Value::as_bytes),
        Some(b"new".as_ref())
    );
    assert_eq!(table.len(), 1);
}

#[test]
fn stale_seq_does_not_clobber() {
    let mut table = MemTable::new(1024);
    assert!(table.put(key(b"k"), Value::new(b"new"), SeqNum::new(5)));
    assert!(!table.put(key(b"k"), Value::new(b"old"), SeqNum::new(3)));
    assert_eq!(
        table.get(b"k").value().map(Value::as_bytes),
        Some(b"new".as_ref())
    );
}

#[test]
fn delete_is_deleted_not_missing() {
    let mut table = MemTable::new(1024);
    table.put(key(b"k"), Value::new(b"v"), SeqNum::new(1));
    assert!(table.delete(key(b"k"), SeqNum::new(2)));
    let got = table.get(b"k");
    match got {
        Lookup::Deleted(seq) => assert_eq!(seq, SeqNum::new(2)),
        Lookup::Alive(_) => panic!("un tombstone no es Alive"),
        Lookup::Missing => panic!("un tombstone no es Missing: el motor iría a disco"),
    }
    assert!(table.get(b"k").is_deleted());
    assert!(table.get(b"k").value().is_none());
}

#[test]
fn delete_of_unknown_key_still_writes_tombstone() {
    let mut table = MemTable::new(1024);
    assert!(table.delete(key(b"ghost"), SeqNum::new(1)));
    assert!(table.get(b"ghost").is_deleted());
    assert_eq!(table.len(), 1);
}

#[test]
fn put_after_delete_resurrects() {
    let mut table = MemTable::new(1024);
    table.delete(key(b"k"), SeqNum::new(1));
    table.put(key(b"k"), Value::new(b"back"), SeqNum::new(2));
    assert_eq!(
        table.get(b"k").value().map(Value::as_bytes),
        Some(b"back".as_ref())
    );
}

#[test]
fn empty_value_is_alive_not_tombstone() {
    let mut table = MemTable::new(1024);
    table.put(key(b"k"), Value::default(), SeqNum::new(1));
    let got = table.get(b"k");
    match got {
        Lookup::Alive(pinned) => assert!(pinned.value().is_empty()),
        Lookup::Deleted(_) => panic!("Value vacío no es tombstone"),
        Lookup::Missing => panic!("la clave debería existir"),
    }
}

#[test]
fn iter_is_lexicographic_and_includes_tombstones() {
    let mut table = MemTable::new(4096);
    table.put(key(b"c"), Value::new(b"3"), SeqNum::new(1));
    table.put(key(b"a"), Value::new(b"1"), SeqNum::new(2));
    table.delete(key(b"b"), SeqNum::new(3));

    let keys: Vec<Vec<u8>> = table
        .iter()
        .iter()
        .map(|item| item.key().as_bytes().to_vec())
        .collect();
    assert_eq!(keys, vec![b"a".to_vec(), b"b".to_vec(), b"c".to_vec()]);

    let kinds: Vec<Option<Vec<u8>>> = table
        .iter()
        .iter()
        .map(|item| match item.mem_value() {
            MemValue::Put(v) => Some(v.as_bytes().to_vec()),
            MemValue::Tombstone => None,
        })
        .collect();
    assert_eq!(kinds[0].as_deref(), Some(b"1".as_ref()));
    assert!(kinds[1].is_none());
    assert_eq!(kinds[2].as_deref(), Some(b"3".as_ref()));
}

#[test]
fn approx_bytes_grows_with_put() {
    let mut table = MemTable::new(10_000);
    assert_eq!(table.approx_bytes(), 0);
    table.put(key(b"abc"), Value::new(b"xyz"), SeqNum::new(1));
    let size = table.approx_bytes();
    assert!(
        size >= 3 + 3 + ENTRY_OVERHEAD_FOR_TEST,
        "size={size} debería incluir clave, valor y overhead"
    );
    table.put(key(b"abc"), Value::new(b"xyz"), SeqNum::new(2));
    assert_eq!(table.len(), 1);
    assert!(table.approx_bytes() > 0);
}

const ENTRY_OVERHEAD_FOR_TEST: usize = 16;

#[test]
fn is_full_does_not_reject_writes() {
    let mut table = MemTable::new(1);
    assert!(!table.is_full());
    table.put(key(b"k"), Value::new(b"value"), SeqNum::new(1));
    assert!(table.is_full());
    assert!(table.put(key(b"k2"), Value::new(b"more"), SeqNum::new(2)));
    assert_eq!(
        table.get(b"k2").value().map(Value::as_bytes),
        Some(b"more".as_ref())
    );
}

#[test]
fn memtable_is_send_sync() {
    fn assert_bounds<T: Send + Sync>() {}
    assert_bounds::<MemTable>();
}

#[test]
fn equal_seq_replaces_and_counts() {
    let mut table = MemTable::new(1024);
    assert!(table.put(key(b"k"), Value::new(b"one"), SeqNum::new(4)));
    assert_eq!(table.approx_bytes(), 1 + 3 + 16);
    assert!(table.put(key(b"k"), Value::new(b"three"), SeqNum::new(4)));
    assert_eq!(table.approx_bytes(), 1 + 5 + 16);
    assert!(table.delete(key(b"k"), SeqNum::new(9)));
    assert_eq!(table.approx_bytes(), 1 + 16);
    assert!(!table.put(key(b"k"), Value::new(b"late"), SeqNum::new(8)));
    assert_eq!(table.approx_bytes(), 1 + 16);
    assert_eq!(table.len(), 1);
    assert!(!table.is_empty());
}

#[test]
fn writes_do_not_touch_other_keys() {
    let mut table = MemTable::new(1024);
    table.put(key(b"a"), Value::new(b"1"), SeqNum::new(1));
    table.put(key(b"b"), Value::new(b"2"), SeqNum::new(2));
    table.delete(key(b"b"), SeqNum::new(3));
    assert_eq!(
        table.get(b"a").value().map(Value::as_bytes),
        Some(b"1".as_ref())
    );
    assert!(table.get(b"ab").is_missing());
    assert!(table.get(b"").is_missing());
    assert_eq!(table.capacity(), 1024);
}

#[test]
fn iter_gives_seq_of_newest_version() {
    let mut table = MemTable::new(1024);
    for i in (0..50_u64).rev() {
        table.put(key(&[i as u8 + 1]), Value::new(b"v"), SeqNum::new(i));
    }
    table.put(key(&[7]), Value::new(b"w"), SeqNum::new(99));
    let items = table.iter();
    assert_eq!(items.len(), 50);
    for (i, item) in items.iter().enumerate() {
        assert_eq!(item.key().as_bytes(), &[i as u8 + 1]);
        let expected = if i == 6 { 99 } else { i as u64 };
        assert_eq!(item.seq().get(), expected);
    }
}

#[test]
fn counter_is_the_sum_over_the_entries() {
    let mut table = MemTable::new(1024);
    for i in 0..200_u64 {
        let k = key(format!("k{}", i % 17).as_bytes());
        if i % 3 == 0 {
            table.delete(k, SeqNum::new(i * 7 % 101));
        } else {
            let value = vec![0; (i % 11) as usize];
            table.put(k, Value::from_vec(value), SeqNum::new(i * 7 % 101));
        }
        let sum: usize = table
            .iter()
            .iter()
            .map(|item| {
                let value = match item.mem_value() {
                    MemValue::Put(v) => v.len(),
                    MemValue::Tombstone => 0,
                };
                item.key().len() + value + 16
            })
            .sum();
        assert_eq!(table.approx_bytes(), sum);
    }
}
