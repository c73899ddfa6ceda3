use nvme_state_db::engine::{EngineLookup, EngineOptions, EngineValue, Tables};
use nvme_state_db::files::{list_sst_files, sst_id};
use nvme_state_db::sstable::flush_memtable;
use nvme_state_db::wal::WalWrite;
use nvme_state_db::{Engine, Error, Key, MemTable, SeqNum, Value, Wal};

/// The files of a data directory. The bytes of tables are never freed, so that an
/// engine can refer to them.
#[derive(Default)]
struct Dir {
    log: Option<Vec<u8>>,
    tables: Vec<(String, &'static [u8])>,
}

fn store(file: &mut Vec<u8>, write: &WalWrite) {
    let at = write.offset as usize;
    let end = at + write.bytes.len();
    if file.len() < end {
        file.resize(end, 0);
    }
    file[at..end].copy_from_slice(&write.bytes);
}

fn new_log(dir: &mut Dir) -> Wal {
    let (wal, header) = Wal::create(false);
    let mut file = Vec::new();
    store(&mut file, &header);
    dir.log = Some(file);
    wal
}

fn open_with(dir: &mut Dir, opts: EngineOptions) -> Result<Engine<'static>, Error> {
    let names: Vec<String> = dir.tables.iter().map(|(name, _)| name.clone()).collect();
    let files: Vec<(u64, &'static [u8])> = list_sst_files(&names)
        .iter()
        .map(|(id, name)| {
            let found = dir.tables.iter().find(|(n, _)| n == name).expect("file");
            (*id, found.1)
        })
        .collect();
    let tables = Tables::load(&files)?;
    let wal = match &dir.log {
        Some(image) => Wal::open(image, false)?,
        None => new_log(dir),
    };
    let image = dir.log.as_ref().expect("log");
    Engine::open_with(tables, wal, image, opts)
}

fn open(dir: &mut Dir) -> Engine<'static> {
    open_with(dir, EngineOptions::default()).expect("open")
}

fn put(dir: &mut Dir, db: &mut Engine<'static>, key: &[u8], value: &[u8]) -> Result<(), Error> {
    let pending = db.put(key, value)?;
    store(dir.log.as_mut().expect("log"), &pending.write);
    db.apply(pending)
}

fn delete(dir: &mut Dir, db: &mut Engine<'static>, key: &[u8]) -> Result<(), Error> {
    let pending = db.delete(key)?;
    store(dir.log.as_mut().expect("log"), &pending.write);
    db.apply(pending)
}

fn flush(dir: &mut Dir, db: &mut Engine<'static>) -> Result<(), Error> {
    let plan = match db.flush()? {
        Some(plan) => plan,
        None => return Ok(()),
    };
    let data: &'static [u8] = plan.image.bytes.leak();
    dir.tables.push((plan.name, data));
    db.install(data)?;
    let wal = new_log(dir);
    db.rotate_wal(wal);
    Ok(())
}

#[test]
fn put_then_get_from_memtable() {
    let mut dir = Dir::default();
    let mut db = open(&mut dir);
    put(&mut dir, &mut db, b"k", b"v").expect("put");
    assert_eq!(db.get(b"k").expect("get").as_bytes(), Some(b"v".as_ref()));
    assert!(db.get(b"no").expect("miss").is_missing());
    assert_eq!(db.sstable_count(), 0);
}

#[test]
fn crash_reopen_replays_wal() {
    let mut dir = Dir::default();
    {
        let mut db = open(&mut dir);
        put(&mut dir, &mut db, b"alpha", b"uno").expect("put");
        put(&mut dir, &mut db, b"beta", b"dos").expect("put");
    }
    let db = open(&mut dir);
    assert_eq!(
        db.get(b"alpha").expect("a").as_bytes(),
        Some(b"uno".as_ref())
    );
    assert_eq!(
        db.get(b"beta").expect("b").as_bytes(),
        Some(b"dos".as_ref())
    );
    assert_eq!(db.sstable_count(), 0);
}

#[test]
fn flush_then_get_from_sstable() {
    let mut dir = Dir::default();
    let mut db = open(&mut dir);
    put(&mut dir, &mut db, b"k", b"sst").expect("put");
    flush(&mut dir, &mut db).expect("flush");
    assert_eq!(db.sstable_count(), 1);
    assert_eq!(db.get(b"k").expect("get").as_bytes(), Some(b"sst".as_ref()));
}

#[test]
fn flush_then_reopen_reads_sstable_not_wal() {
    let mut dir = Dir::default();
    {
        let mut db = open(&mut dir);
        put(&mut dir, &mut db, b"k", b"disco").expect("put");
        flush(&mut dir, &mut db).expect("flush");
    }
    let db = open(&mut dir);
    assert_eq!(db.sstable_count(), 1);
    assert_eq!(
        db.get(b"k").expect("get").as_bytes(),
        Some(b"disco".as_ref())
    );
}

#[test]
fn newer_sstable_wins_over_older() {
    let mut dir = Dir::default();
    let mut db = open(&mut dir);
    put(&mut dir, &mut db, b"k", b"viejo").expect("put1");
    flush(&mut dir, &mut db).expect("f1");
    put(&mut dir, &mut db, b"k", b"nuevo").expect("put2");
    flush(&mut dir, &mut db).expect("f2");
    assert_eq!(db.sstable_count(), 2);
    assert_eq!(
        db.get(b"k").expect("get").as_bytes(),
        Some(b"nuevo".as_ref())
    );
}

#[test]
fn tombstone_hides_sstable_value() {
    let mut dir = Dir::default();
    let mut db = open(&mut dir);
    put(&mut dir, &mut db, b"k", b"vivo").expect("put");
    flush(&mut dir, &mut db).expect("flush");
    delete(&mut dir, &mut db, b"k").expect("del");
    assert!(db.get(b"k").expect("get").is_deleted());
}

#[test]
fn memtable_overrides_sstable_until_flush() {
    let mut dir = Dir::default();
    let mut db = open(&mut dir);
    put(&mut dir, &mut db, b"k", b"sst").expect("put");
    flush(&mut dir, &mut db).expect("flush");
    put(&mut dir, &mut db, b"k", b"ram").expect("put2");
    assert_eq!(db.get(b"k").expect("get").as_bytes(), Some(b"ram".as_ref()));
}

#[test]
fn needs_flush_after_small_capacity() {
    let mut dir = Dir::default();
    let mut db = open_with(
        &mut dir,
        EngineOptions {
            mem_capacity_bytes: 8,
        },
    )
    .expect("open");
    assert!(!db.needs_flush());
    put(&mut dir, &mut db, b"k", b"12345678").expect("put");
    assert!(db.needs_flush());
    assert_eq!(EngineOptions::default().mem_capacity_bytes, 65536);
}

#[test]
fn engine_empty_key_is_error() {
    let mut dir = Dir::default();
    let mut db = open(&mut dir);
    assert!(matches!(
        put(&mut dir, &mut db, b"", b"v"),
        Err(Error::EmptyKey)
    ));
    assert!(matches!(db.get(b""), Err(Error::EmptyKey)));
    assert!(matches!(db.delete(b""), Err(Error::EmptyKey)));
}

#[test]
fn numbers_of_writes_increase_over_restarts() {
    let mut dir = Dir::default();
    let mut db = open(&mut dir);
    put(&mut dir, &mut db, b"a", b"1").expect("put");
    put(&mut dir, &mut db, b"b", b"2").expect("put");
    flush(&mut dir, &mut db).expect("flush");
    let mut db = open(&mut dir);
    put(&mut dir, &mut db, b"c", b"3").expect("put");
    match db.get(b"c").expect("get") {
        EngineLookup::Alive(value) => {
            assert_eq!(value.seq().get(), 3);
            assert_eq!(value.as_bytes(), b"3");
        }
        _ => panic!("c"),
    }
    match db.get(b"b").expect("get") {
        EngineLookup::Alive(value) => assert_eq!(value.seq().get(), 2),
        _ => panic!("b"),
    }
    let mut db = open(&mut dir);
    delete(&mut dir, &mut db, b"a").expect("del");
    match db.get(b"a").expect("get") {
        EngineLookup::Deleted(seq) => assert_eq!(seq.get(), 4),
        _ => panic!("a"),
    };
}

#[test]
fn flush_of_nothing_writes_nothing() {
    let mut dir = Dir::default();
    let mut db = open(&mut dir);
    assert!(db.flush().expect("flush").is_none());
    put(&mut dir, &mut db, b"k", b"v").expect("put");
    let plan = db.flush().expect("flush").expect("plan");
    assert_eq!(plan.id, 1);
    assert_eq!(plan.name, "000001.sst");
    assert_eq!(sst_id(&plan.name), Some(1));
    assert_eq!(plan.image.meta.entry_count, 1);
}

#[test]
fn writes_need_a_log() {
    let mut dir = Dir::default();
    let mut db = open(&mut dir);
    put(&mut dir, &mut db, b"k", b"v").expect("put");
    let plan = db.flush().expect("flush").expect("plan");
    db.install(plan.image.bytes.leak()).expect("install");
    assert!(matches!(
        db.put(b"k", b"w"),
        Err(Error::WalCorrupt("WAL no inicializado"))
    ));
    assert_eq!(db.get(b"k").expect("get").as_bytes(), Some(b"v".as_ref()));
    let wal = new_log(&mut dir);
    db.rotate_wal(wal);
    put(&mut dir, &mut db, b"k", b"w").expect("put");
    assert_eq!(db.get(b"k").expect("get").as_bytes(), Some(b"w".as_ref()));
}

#[test]
fn install_of_garbage_changes_nothing() {
    let mut dir = Dir::default();
    let mut db = open(&mut dir);
    put(&mut dir, &mut db, b"k", b"v").expect("put");
    assert!(matches!(db.install(b"corto"), Err(Error::SstCorrupt(_))));
    assert_eq!(db.sstable_count(), 0);
    put(&mut dir, &mut db, b"k", b"w").expect("put");
    assert_eq!(db.get(b"k").expect("get").as_bytes(), Some(b"w".as_ref()));
}

#[test]
fn oversized_put_is_refused() {
    let mut dir = Dir::default();
    let db = open(&mut dir);
    let value = vec![0; 16 * 1024 * 1024];
    assert!(matches!(
        db.put(b"k", &value),
        Err(Error::WalRecordTooLarge { .. })
    ));
    assert!(db.get(b"k").expect("get").is_missing());
}

#[test]
fn unlogged_write_is_not_visible() {
    let mut dir = Dir::default();
    let mut db = open(&mut dir);
    put(&mut dir, &mut db, b"k", b"old").expect("put");
    let pending = db.put(b"k", b"new").expect("pending");
    assert_eq!(db.get(b"k").expect("get").as_bytes(), Some(b"old".as_ref()));
    let mut torn = dir.log.clone().expect("log");
    torn.extend_from_slice(&pending.write.bytes[..100]);
    dir.log = Some(torn);
    let db = open(&mut dir);
    assert_eq!(db.get(b"k").expect("get").as_bytes(), Some(b"old".as_ref()));
}

#[test]
fn logged_write_survives_without_being_applied() {
    let mut dir = Dir::default();
    let db = open(&mut dir);
    let pending = db.put(b"k", b"v").expect("pending");
    store(dir.log.as_mut().expect("log"), &pending.write);
    let db = open(&mut dir);
    assert_eq!(db.get(b"k").expect("get").as_bytes(), Some(b"v".as_ref()));
}

#[test]
fn crash_between_flush_and_rotation_is_harmless() {
    let mut dir = Dir::default();
    let mut db = open(&mut dir);
    put(&mut dir, &mut db, b"a", b"1").expect("put");
    delete(&mut dir, &mut db, b"b").expect("del");
    let plan = db.flush().expect("flush").expect("plan");
    dir.tables.push((plan.name, plan.image.bytes.leak()));
    let db = open(&mut dir);
    assert_eq!(db.sstable_count(), 1);
    assert_eq!(db.get(b"a").expect("get").as_bytes(), Some(b"1".as_ref()));
    assert!(db.get(b"b").expect("get").is_deleted());
    assert!(db.get(b"c").expect("get").is_missing());
}

#[test]
fn last_number_is_an_overflow() {
    let mut table = MemTable::new(64);
    let key = Key::new(b"k").expect("key");
    table.put(key, Value::new(b"v"), SeqNum::new(u64::MAX - 1));
    let mut dir = Dir::default();
    let image = flush_memtable(&table).expect("flush");
    dir.tables.push(("000009.sst".to_string(), image.bytes.leak()));
    let mut db = open(&mut dir);
    assert!(matches!(
        put(&mut dir, &mut db, b"x", b"y"),
        Err(Error::SequenceOverflow)
    ));
    assert_eq!(db.get(b"x").expect("get").as_bytes(), Some(b"y".as_ref()));
    assert_eq!(db.flush().expect("flush").expect("plan").id, 10);
    assert!(matches!(
        open_with(&mut dir, EngineOptions::default()),
        Err(Error::SequenceOverflow)
    ));
}

#[test]
fn bad_table_stops_the_opening() {
    let mut dir = Dir::default();
    dir.tables.push(("1.sst".to_string(), b"corto"));
    assert!(matches!(
        open_with(&mut dir, EngineOptions::default()),
        Err(Error::SstCorrupt("archivo más corto que el footer"))
    ));
    assert!(dir.log.is_none());
}

#[test]
fn value_says_where_it_was_found() {
    let mut dir = Dir::default();
    let mut db = open(&mut dir);
    put(&mut dir, &mut db, b"k", b"v").expect("put");
    assert!(matches!(
        db.get(b"k").expect("get"),
        EngineLookup::Alive(EngineValue::Mem(_))
    ));
    flush(&mut dir, &mut db).expect("flush");
    assert!(matches!(
        db.get(b"k").expect("get"),
        EngineLookup::Alive(EngineValue::Sst { .. })
    ));
}

#[test]
fn torn_frame_with_a_huge_length_does_not_stop_the_opening() {
    let mut dir = Dir::default();
    let mut db = open(&mut dir);
    put(&mut dir, &mut db, b"k", b"v").expect("put");
    let log = dir.log.as_mut().expect("log");
    log.resize(12288, 0);
    log[8196..8200].copy_from_slice(&[255; 4]);
    let mut db = open(&mut dir);
    assert_eq!(db.get(b"k").expect("get").as_bytes(), Some(b"v".as_ref()));
    put(&mut dir, &mut db, b"k", b"w").expect("put");
    let db = open(&mut dir);
    assert_eq!(db.get(b"k").expect("get").as_bytes(), Some(b"w".as_ref()));
}
