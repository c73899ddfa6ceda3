use nvme_state_db::wal::{
    align_up, check_aligned_slice, create_missing, decode_payload, direct_unsupported,
    encode_frame, encode_payload, open_again, payload_size, read_frame, read_header, read_one,
    write_header, WALHeader, WalWrite, MAX_RECORD_BYTES, WAL_FLAG_DIRECT, WAL_MAGIC, WAL_VERSION,
};
use nvme_state_db::{Error, Key, Lookup, MemTable, SeqNum, Value, Wal, WalOp, WAL_ALIGN};

fn key(bytes: &[u8]) -> Key {
    Key::new(bytes).expect("clave")
}

/// A log and the bytes of its file.
struct Log {
    wal: Wal,
    file: Vec<u8>,
}

fn store(file: &mut Vec<u8>, write: &WalWrite) {
    let at = write.offset as usize;
    let end = at + write.bytes.len();
    if file.len() < end {
        file.resize(end, 0);
    }
    file[at..end].copy_from_slice(&write.bytes);
}

fn create() -> Log {
    let (wal, header) = Wal::create(true);
    let mut file = Vec::new();
    store(&mut file, &header);
    Log { wal, file }
}

fn append(log: &mut Log, seq: u64, op: WalOp) {
    let write = log.wal.append(SeqNum::new(seq), &op).expect("append");
    store(&mut log.file, &write);
    log.wal.appended(&write);
}

fn put(log: &mut Log, seq: u64, k: &[u8], v: &[u8]) {
    let op = WalOp::Put {
        key: key(k),
        value: Value::new(v),
    };
    append(log, seq, op);
}

fn error<T>(r: Result<T, Error>) -> Error {
    match r {
        Err(e) => e,
        Ok(_) => panic!("esperado un error"),
    }
}

#[test]
fn header_is_exactly_one_page() {
    assert_eq!(std::mem::size_of::<WALHeader>(), WAL_ALIGN);
    assert_eq!(WAL_MAGIC, *b"NSDB");
    assert_eq!(WAL_VERSION, 1);
}

#[test]
fn align_up_rounds_to_pages() {
    assert_eq!(align_up(0), WAL_ALIGN);
    assert_eq!(align_up(1), WAL_ALIGN);
    assert_eq!(align_up(WAL_ALIGN), WAL_ALIGN);
    assert_eq!(align_up(WAL_ALIGN + 1), WAL_ALIGN * 2);
}

#[test]
fn unaligned_slice_is_rejected() {
    let err = check_aligned_slice(WAL_ALIGN * 7 + 1, WAL_ALIGN, WAL_ALIGN as u64)
        .expect_err("un Vec desplazado no debería pasar");
    assert!(matches!(
        err,
        Error::Unaligned {
            required: WAL_ALIGN
        }
    ));
}

#[test]
fn each_alignment_is_checked() {
    assert!(check_aligned_slice(8192, 4096, 0).is_ok());
    assert!(check_aligned_slice(8192, 4095, 0).is_err());
    assert!(check_aligned_slice(8192, 4096, 512).is_err());
}

#[test]
fn open_retries_only_without_direct_io() {
    assert!(direct_unsupported(Some(22)));
    assert!(direct_unsupported(Some(95)));
    assert!(!direct_unsupported(Some(2)));
    assert!(!direct_unsupported(None));
    assert!(create_missing(true, false));
    assert!(!create_missing(true, true));
    assert!(open_again(Some(22), false, false));
    assert!(!open_again(Some(22), true, false));
    assert!(!open_again(Some(13), false, true));
}

#[test]
fn append_put_then_replay() {
    let mut log = create();
    put(&mut log, 1, b"balance", b"100");
    assert!(log.wal.offset() % WAL_ALIGN as u64 == 0);
    let records = log.wal.replay(&log.file).expect("replay");
    assert_eq!(records.len(), 1);
    assert_eq!(records[0].seq, SeqNum::new(1));
    match &records[0].op {
        WalOp::Put { key, value } => {
            assert_eq!(key.as_bytes(), b"balance");
            assert_eq!(value.as_bytes(), b"100");
        }
        WalOp::Delete { .. } => panic!("esperado Put"),
    }
}

#[test]
fn append_delete_replays_as_delete() {
    let mut log = create();
    append(
        &mut log,
        1,
        WalOp::Delete {
            key: key(b"balance"),
        },
    );
    let records = log.wal.replay(&log.file).expect("replay");
    assert!(matches!(records[0].op, WalOp::Delete { .. }));
}

#[test]
fn file_size_is_multiple_of_4k() {
    let mut log = create();
    put(&mut log, 1, b"k", b"v");
    let len = log.file.len() as u64;
    assert!(len % WAL_ALIGN as u64 == 0);
    assert_eq!(len, (WAL_ALIGN * 2) as u64);
}

#[test]
fn crash_reopen_replays_same_ops() {
    let mut log = create();
    put(&mut log, 1, b"a", b"1");
    put(&mut log, 2, b"b", b"2");
    append(&mut log, 3, WalOp::Delete { key: key(b"a") });
    let wal = Wal::open(&log.file, true).expect("open after crash");
    let records = wal.replay(&log.file).expect("replay");
    assert_eq!(records.len(), 3);
    assert!(matches!(records[2].op, WalOp::Delete { .. }));
    assert_eq!(wal.offset(), log.wal.offset());
}

#[test]
fn wal_then_memtable_survives_reopen() {
    let mut log = create();
    put(&mut log, 1, b"k", b"old");
    put(&mut log, 2, b"k", b"new");
    let wal = Wal::open(&log.file, true).expect("open");
    let mut table = MemTable::new(1024);
    for rec in wal.replay(&log.file).expect("replay") {
        match rec.op {
            WalOp::Put { key, value } => {
                table.put(key, value, rec.seq);
            }
            WalOp::Delete { key } => {
                table.delete(key, rec.seq);
            }
        }
    }
    let got = table.get(b"k");
    match got {
        Lookup::Alive(pinned) => assert_eq!(pinned.value().as_bytes(), b"new"),
        Lookup::Deleted(_) | Lookup::Missing => panic!("k debería estar Alive"),
    }
}

#[test]
fn large_value_spans_two_pages() {
    let mut log = create();
    let big = vec![0xAB; 5000];
    append(
        &mut log,
        1,
        WalOp::Put {
            key: key(b"blob"),
            value: Value::from_vec(big.clone()),
        },
    );
    assert!(log.wal.offset() >= (WAL_ALIGN * 3) as u64);
    let recs = log.wal.replay(&log.file).expect("replay");
    match &recs[0].op {
        WalOp::Put { value, .. } => assert_eq!(value.as_bytes(), big.as_slice()),
        WalOp::Delete { .. } => panic!("put"),
    }
}

#[test]
fn corrupt_second_record_stops_replay() {
    let mut log = create();
    put(&mut log, 1, b"keep", b"ok");
    put(&mut log, 2, b"drop", b"xx");
    log.file[WAL_ALIGN * 2 + 20] ^= 0xFF;
    let wal = Wal::open(&log.file, true).expect("open");
    let recs = wal.replay(&log.file).expect("replay");
    assert_eq!(recs.len(), 1);
    match &recs[0].op {
        WalOp::Put { key, .. } => assert_eq!(key.as_bytes(), b"keep"),
        WalOp::Delete { .. } => panic!("keep"),
    }
}

#[test]
fn header_page_has_fixed_bytes() {
    let (wal, header) = Wal::create(true);
    assert!(wal.is_direct());
    assert_eq!(wal.offset(), 4096);
    assert_eq!(header.offset, 0);
    assert_eq!(header.bytes.len(), 4096);
    assert_eq!(
        &header.bytes[..12],
        b"NSDB\x01\x00\x01\x00\xeb\xe9\x55\x5c"
    );
    assert!(header.bytes[12..].iter().all(|b| *b == 0));
    let (wal, header) = Wal::create(false);
    assert!(!wal.is_direct());
    assert_eq!(
        &header.bytes[..12],
        b"NSDB\x01\x00\x00\x00\xaa\xd8\x4e\x45"
    );
    assert_eq!(write_header(WAL_FLAG_DIRECT, 5)[8], 5);
}

#[test]
fn frame_has_fixed_bytes() {
    let log = create();
    let op = WalOp::Put {
        key: key(b"balance"),
        value: Value::new(b"100"),
    };
    assert_eq!(payload_size(&op), 27);
    let write = log.wal.append(SeqNum::new(1), &op).expect("append");
    assert_eq!(write.offset, 4096);
    assert_eq!(write.bytes.len(), 4096);
    assert_eq!(&write.bytes[..8], b"\x64\xb8\x76\x36\x1b\x00\x00\x00");
    assert_eq!(
        &write.bytes[8..35],
        b"\x01\x00\x00\x00\x00\x00\x00\x00\x01\x07\x00\x00\x00\x03\x00\x00\x00balance100"
    );
    assert!(write.bytes[35..].iter().all(|b| *b == 0));
    let mut payload = Vec::new();
    encode_payload(&mut payload, SeqNum::new(1), &op).expect("payload");
    assert_eq!(payload.as_slice(), &write.bytes[8..35]);
    assert_eq!(encode_frame(&payload, 0x3676_b864), write.bytes);
}

#[test]
fn header_errors() {
    let log = create();
    assert!(matches!(
        error(Wal::open(&log.file[..4095], true)),
        Error::WalCorrupt("cabecera truncada")
    ));
    let mut bad = log.file.clone();
    bad[0] = b'X';
    assert!(matches!(
        error(Wal::open(&bad, true)),
        Error::WalCorrupt("magic inválida")
    ));
    let mut bad = log.file.clone();
    bad[4] = 9;
    assert!(matches!(
        error(Wal::open(&bad, true)),
        Error::UnsupportedWalVersion(9)
    ));
    let mut bad = log.file.clone();
    bad[8] ^= 1;
    assert!(matches!(
        error(Wal::open(&bad, true)),
        Error::WalCorrupt("checksum de cabecera")
    ));
    assert!(read_header(&log.file, 0x5c55_e9eb).is_ok());
    assert!(read_header(&log.file, 0).is_err());
}

#[test]
fn payload_errors() {
    let reason = |bytes: &[u8]| match decode_payload(bytes) {
        Err(Error::WalCorrupt(reason)) => reason,
        _ => panic!("esperado WalCorrupt"),
    };
    let mut good = vec![0u8; 17];
    good[0] = 7;
    good[8] = 1;
    good[9] = 1;
    good[13] = 1;
    good.extend_from_slice(b"kv");
    let record = decode_payload(&good).expect("decode");
    assert_eq!(record.seq.get(), 7);
    assert_eq!(
        record.op,
        WalOp::Put {
            key: key(b"k"),
            value: Value::new(b"v")
        }
    );
    assert_eq!(reason(&good[..16]), "payload corto");
    assert_eq!(reason(&good[..18]), "longitudes de clave/valor");
    let mut bad = good.clone();
    bad[9] = 3;
    assert_eq!(reason(&bad), "longitudes de clave/valor");
    let mut bad = good.clone();
    bad[8] = 2;
    assert_eq!(reason(&bad), "delete con valor");
    let mut bad = good.clone();
    bad[8] = 3;
    assert_eq!(reason(&bad), "kind desconocido");
    let mut bad = good.clone();
    bad[9] = 0;
    bad[13] = 2;
    assert!(matches!(error(decode_payload(&bad)), Error::EmptyKey));
}

#[test]
fn oversized_records_are_refused() {
    let log = create();
    let op = WalOp::Put {
        key: key(b"k"),
        value: Value::from_vec(vec![0; MAX_RECORD_BYTES]),
    };
    assert!(matches!(
        error(log.wal.append(SeqNum::new(1), &op)),
        Error::WalRecordTooLarge {
            size: 16_781_312,
            max: 16_777_216
        }
    ));
    let fits = WalOp::Put {
        key: key(b"k"),
        value: Value::from_vec(vec![0; MAX_RECORD_BYTES - 26]),
    };
    let write = log.wal.append(SeqNum::new(1), &fits).expect("append");
    assert_eq!(write.bytes.len(), MAX_RECORD_BYTES);
    let mut file = log.file.clone();
    file.resize(8192, 0);
    file[4100..4104].copy_from_slice(&0x0100_0000_u32.to_le_bytes());
    let wal = Wal::open(&file, true).expect("open");
    assert_eq!(wal.offset(), 4096);
    file.resize(4096 + 16_781_312, 0);
    assert!(matches!(
        error(Wal::open(&file, true)),
        Error::WalRecordTooLarge {
            size: 16_781_312,
            max: 16_777_216
        }
    ));
    assert!(matches!(
        error(read_one(&file, 4096)),
        Error::WalRecordTooLarge { .. }
    ));
    file.truncate(4096 + 16_781_311);
    assert!(read_one(&file, 4096).expect("read").is_none());
}

#[test]
fn truncated_frame_with_a_huge_length_ends_the_log() {
    let mut log = create();
    log.file.resize(8192, 0);
    log.file[4100..4104].copy_from_slice(&[255; 4]);
    assert!(read_one(&log.file, 4096).expect("read").is_none());
    assert!(read_frame(&log.file, 4096, 0).expect("read").is_none());
    let wal = Wal::open(&log.file, true).expect("open");
    assert_eq!(wal.offset(), 4096);
    assert!(wal.replay(&log.file).expect("replay").is_empty());
}

#[test]
fn nothing_is_read_past_the_end() {
    let mut log = create();
    put(&mut log, 1, b"k", b"v");
    for offset in [4097, 8192, 8193, 1 << 40, usize::MAX] {
        assert!(read_one(&log.file, offset).expect("read").is_none());
        assert!(read_frame(&log.file, offset, 0).expect("read").is_none());
    }
}

#[test]
fn torn_append_loses_only_itself() {
    let mut log = create();
    put(&mut log, 1, b"keep", b"ok");
    let whole = log.file.clone();
    let op = WalOp::Put {
        key: key(b"torn"),
        value: Value::from_vec(vec![1; 9000]),
    };
    let write = log.wal.append(SeqNum::new(2), &op).expect("append");
    assert_eq!(write.bytes.len(), 3 * WAL_ALIGN);
    for cut in [0, 1, 4095, 4096, 5000, 8192, 12287] {
        let mut file = whole.clone();
        file.extend_from_slice(&write.bytes[..cut]);
        let wal = Wal::open(&file, true).expect("open");
        assert_eq!(wal.offset(), 8192);
        assert_eq!(wal.replay(&file).expect("replay").len(), 1);
    }
    let mut file = whole.clone();
    file.extend_from_slice(&write.bytes);
    let wal = Wal::open(&file, true).expect("open");
    assert_eq!(wal.replay(&file).expect("replay").len(), 2);
}

#[test]
fn zero_page_ends_the_log() {
    let mut log = create();
    put(&mut log, 1, b"k", b"v");
    log.file.resize(5 * WAL_ALIGN, 0);
    let wal = Wal::open(&log.file, false).expect("open");
    assert_eq!(wal.offset(), 8192);
    assert!(read_one(&log.file, 8192).expect("read").is_none());
    let (record, next) = read_one(&log.file, 4096).expect("read").expect("frame");
    assert_eq!(record.seq.get(), 1);
    assert_eq!(next, 8192);
    assert!(read_frame(&log.file, 4096, 0).expect("read").is_none());
}

#[test]
fn append_after_recovery_replays_last() {
    let mut log = create();
    put(&mut log, 1, b"a", b"1");
    let op = WalOp::Put {
        key: key(b"torn"),
        value: Value::from_vec(vec![9; 9000]),
    };
    let torn = log.wal.append(SeqNum::new(2), &op).expect("append");
    log.file.extend_from_slice(&torn.bytes[..8192]);
    log.wal = Wal::open(&log.file, true).expect("open");
    put(&mut log, 2, b"b", b"2");
    let records = log.wal.replay(&log.file).expect("replay");
    assert_eq!(records.len(), 2);
    assert_eq!(
        records[1].op,
        WalOp::Put {
            key: key(b"b"),
            value: Value::new(b"2")
        }
    );
    assert_eq!(records[1].seq.get(), 2);
    let again = Wal::open(&log.file, true).expect("open");
    assert_eq!(again.offset(), log.wal.offset());
    assert_eq!(again.replay(&log.file).expect("replay"), records);
}

#[test]
fn replay_stops_at_the_end_of_the_log() {
    let mut log = create();
    put(&mut log, 1, b"a", b"1");
    let early = Wal::open(&log.file, true).expect("open");
    put(&mut log, 2, b"b", b"2");
    assert_eq!(early.replay(&log.file).expect("replay").len(), 1);
    assert_eq!(log.wal.replay(&log.file).expect("replay").len(), 2);
    assert_eq!(log.wal.replay(&log.file[..8192]).expect("replay").len(), 1);
    assert_eq!(log.wal.replay(b"").expect("replay").len(), 0);
}
