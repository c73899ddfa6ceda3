use nvme_state_db::index::Bloom;
use nvme_state_db::sstable::reader::{lookup_with_crc, parse_index, scan_sorted_payload};
use nvme_state_db::sstable::writer::encode_block;
use nvme_state_db::sstable::{
    decode_index, decode_records, encode_record, flush_memtable, flush_memtable_with, BlockHeader,
    IndexEntry, SstFooter, SstImage, SstLookup, SstReader, SstWriteOptions, SstWriter,
    BLOCK_HEADER_SIZE, BLOCK_MAGIC, FOOTER_SIZE, INDEX_ENTRY_SIZE, SST_MAGIC, SST_VERSION,
};
use nvme_state_db::{Error, Key, MemTable, MemValue, SeqNum, Value};

fn key(bytes: &[u8]) -> Key {
    Key::new(bytes).expect("clave")
}

fn read_at(image: &SstImage, offset: u64, len: usize) -> &[u8] {
    &image.bytes[offset as usize..offset as usize + len]
}

fn reason<T>(r: Result<T, Error>) -> &'static str {
    match r {
        Err(Error::SstCorrupt(reason)) => reason,
        _ => panic!("esperado SstCorrupt"),
    }
}

#[test]
fn on_disk_headers_have_fixed_size() {
    assert_eq!(std::mem::size_of::<BlockHeader>(), BLOCK_HEADER_SIZE);
    assert_eq!(std::mem::size_of::<IndexEntry>(), INDEX_ENTRY_SIZE);
    assert_eq!(std::mem::size_of::<SstFooter>(), FOOTER_SIZE);
}

#[test]
fn flush_empty_memtable_writes_valid_footer() {
    let table = MemTable::new(1024);
    let image = flush_memtable(&table).expect("flush");
    let meta = image.meta;
    assert_eq!(meta.entry_count, 0);
    assert_eq!(meta.block_count, 0);
    assert!(meta.file_size >= FOOTER_SIZE as u64);
    let footer = SstFooter::read_from_file(&image.bytes).expect("footer");
    assert_eq!(footer.magic, SST_MAGIC);
    assert_eq!(footer.entry_count, 0);
    assert_eq!(footer.block_count, 0);
    let bloom = Bloom::from_bytes(read_at(
        &image,
        footer.bloom_offset,
        footer.bloom_len as usize,
    ))
    .expect("bloom parse");
    assert!(!bloom.may_contain(b"nada"));
}

#[test]
fn flush_puts_and_tombstone_roundtrip_structure() {
    let mut table = MemTable::new(64 * 1024);
    table.put(key(b"c"), Value::new(b"3"), SeqNum::new(1));
    table.put(key(b"a"), Value::new(b"1"), SeqNum::new(2));
    table.delete(key(b"b"), SeqNum::new(3));
    let image = flush_memtable(&table).expect("flush");
    assert_eq!(image.meta.entry_count, 3);
    assert_eq!(image.meta.block_count, 1);

    let footer = SstFooter::read_from_file(&image.bytes).expect("footer");
    assert_eq!(footer.min_seq, 1);
    assert_eq!(footer.max_seq, 3);

    let bloom_bytes = read_at(&image, footer.bloom_offset, footer.bloom_len as usize);
    let bloom = Bloom::from_bytes(bloom_bytes).expect("bloom");
    assert!(bloom.may_contain(b"a"));
    assert!(bloom.may_contain(b"b"));
    assert!(bloom.may_contain(b"c"));
    assert!(!bloom.may_contain(b"zzz"));

    let index_bytes = read_at(&image, footer.index_offset, footer.index_len as usize);
    let index = decode_index(index_bytes).expect("index");
    assert_eq!(index.len(), 1);
    assert_eq!(index[0].0, b"a");

    let (first_key, entry) = &index[0];
    assert_eq!(first_key.as_slice(), b"a");
    let block = read_at(&image, entry.block_offset, entry.block_len as usize);
    let header = BlockHeader::decode(block).expect("hdr");
    assert_eq!(header.record_count, 3);
    let payload = &block[BLOCK_HEADER_SIZE..];
    assert_eq!(crc32fast::hash(payload), header.crc32);
    let recs = decode_records(payload).expect("recs");
    assert_eq!(recs[0].key, b"a");
    assert_eq!(recs[1].key, b"b");
    assert_eq!(recs[2].key, b"c");
    assert!(recs[0].value.is_some());
    assert!(recs[1].value.is_none());
    assert_eq!(recs[2].value.as_deref(), Some(b"3".as_ref()));
}

#[test]
fn small_blocks_produce_multiple_index_entries() {
    let mut table = MemTable::new(64 * 1024);
    for i in 0..8_u64 {
        let k = Key::new(format!("k{i}").as_bytes()).expect("k");
        table.put(k, Value::new(b"xxxx"), SeqNum::new(i + 1));
    }
    let opts = SstWriteOptions {
        block_size: 40,
        bits_per_key: 10,
    };
    let image = flush_memtable_with(&table, opts).expect("flush");
    let meta = image.meta;
    assert!(meta.block_count >= 2, "block_count={}", meta.block_count);
    let footer = SstFooter::read_from_file(&image.bytes).expect("footer");
    let index = decode_index(read_at(
        &image,
        footer.index_offset,
        footer.index_len as usize,
    ))
    .expect("index");
    assert_eq!(index.len() as u64, meta.block_count);
    let mut prev = Vec::new();
    for (first, _) in &index {
        assert!(first >= &prev, "índice desordenado");
        prev = first.clone();
    }
}

#[test]
fn file_ends_with_footer_magic() {
    let mut table = MemTable::new(1024);
    table.put(key(b"k"), Value::new(b"v"), SeqNum::new(1));
    let image = flush_memtable(&table).expect("flush");
    let raw = &image.bytes;
    assert_eq!(raw.len() as u64, image.meta.file_size);
    let tail = &raw[raw.len() - FOOTER_SIZE..];
    assert_eq!(&tail[0..4], &SST_MAGIC);
    SstFooter::decode(tail).expect("decode");
}

#[test]
fn round_trip_put_and_missing() {
    let mut table = MemTable::new(64 * 1024);
    table.put(key(b"alpha"), Value::new(b"uno"), SeqNum::new(1));
    table.put(key(b"beta"), Value::new(b""), SeqNum::new(2));
    let image = flush_memtable(&table).expect("flush");

    let reader = SstReader::open(&image.bytes).expect("open");
    match reader.get(b"alpha").expect("get") {
        SstLookup::Alive { seq, value } => {
            assert_eq!(seq.get(), 1);
            assert_eq!(value, b"uno");
        }
        other => panic!("esperado Alive, {other:?}"),
    }
    match reader.get(b"beta").expect("get") {
        SstLookup::Alive { value, .. } => assert!(value.is_empty()),
        other => panic!("valor vacío debe ser Alive, {other:?}"),
    }
    assert!(reader.get(b"zzz").expect("miss").is_missing());
    assert!(reader.get(b"aaa").expect("antes").is_missing());
}

#[test]
fn tombstone_is_deleted_not_missing() {
    let mut table = MemTable::new(1024);
    table.delete(key(b"gone"), SeqNum::new(9));
    let image = flush_memtable(&table).expect("flush");
    let reader = SstReader::open(&image.bytes).expect("open");
    assert_eq!(
        reader.get(b"gone").expect("get"),
        SstLookup::Deleted(SeqNum::new(9))
    );
}

#[test]
fn empty_sst_get_is_missing() {
    let table = MemTable::new(1024);
    let image = flush_memtable(&table).expect("flush");
    let reader = SstReader::open(&image.bytes).expect("open");
    assert!(reader.get(b"k").expect("get").is_missing());
}

#[test]
fn value_slice_is_inside_mmap() {
    let mut table = MemTable::new(1024);
    table.put(key(b"k"), Value::new(b"payload"), SeqNum::new(1));
    let image = flush_memtable(&table).expect("flush");
    let reader = SstReader::open(&image.bytes).expect("open");
    let lookup = reader.get(b"k").expect("get");
    let value = lookup.value().expect("alive");
    let map = image.bytes.as_slice();
    let start = map.as_ptr() as usize;
    let end = start + map.len();
    let p = value.as_ptr() as usize;
    assert!(
        p >= start && p + value.len() <= end,
        "el valor debe vivir en el mmap"
    );
}

#[test]
fn multi_block_gets_every_key() {
    let mut table = MemTable::new(64 * 1024);
    for i in 0..8_u64 {
        let k = Key::new(format!("k{i}").as_bytes()).expect("k");
        table.put(
            k,
            Value::new(format!("v{i}").as_bytes()),
            SeqNum::new(i + 1),
        );
    }
    let opts = SstWriteOptions {
        block_size: 40,
        bits_per_key: 10,
    };
    let image = flush_memtable_with(&table, opts).expect("flush");
    assert!(image.meta.block_count >= 2);
    let reader = SstReader::open(&image.bytes).expect("open");
    for i in 0..8_u64 {
        let k = format!("k{i}");
        let v = format!("v{i}");
        match reader.get(k.as_bytes()).expect("get") {
            SstLookup::Alive { seq, value } => {
                assert_eq!(seq.get(), i + 1);
                assert_eq!(value, v.as_bytes());
            }
            other => panic!("k{i}: {other:?}"),
        }
    }
    assert!(reader.get(b"k9").expect("miss").is_missing());
}

#[test]
fn reader_empty_key_is_error() {
    let image = flush_memtable(&MemTable::new(64)).expect("flush");
    let reader = SstReader::open(&image.bytes).expect("open");
    assert!(matches!(reader.get(b""), Err(Error::EmptyKey)));
}

#[test]
fn open_rejects_truncated_file() {
    assert!(SstReader::open(b"corto").is_err());
    assert_eq!(
        reason(SstReader::open(b"corto")),
        "archivo más corto que el footer"
    );
}

#[test]
fn one_record_file_has_fixed_bytes() {
    let mut table = MemTable::new(1024);
    table.put(key(b"k"), Value::new(b"v"), SeqNum::new(1));
    let image = flush_memtable(&table).expect("flush");
    let bytes = &image.bytes;
    assert_eq!(bytes.len(), 224);
    assert_eq!(
        &bytes[..35],
        b"BLK1\x4d\x41\x32\x4b\x13\0\0\0\x01\0\0\0\x01\0\0\0\x01\0\0\0\x01\0\0\0\0\0\0\0\x01kv"
    );
    assert_eq!(
        &bytes[35..52],
        b"\0\0\0\0\0\0\0\0\x23\0\0\0\x01\0\0\0k"
    );
    assert_eq!(&bytes[52..64], b"BLM1\x08\x0a\0\0\x01\0\0\0");
    assert_eq!(&bytes[96..104], b"SST1\x01\0\0\0");
    assert_eq!(&bytes[168..172], b"\xcd\x6f\xaf\x94");
    assert_eq!(crc32fast::hash(bytes), 0xd7c8_443b);
}

#[test]
fn header_structures_round_trip() {
    let header = BlockHeader {
        magic: BLOCK_MAGIC,
        crc32: 0xDEAD_BEEF,
        payload_len: 7,
        record_count: 2,
    };
    let bytes = header.encode().expect("encode");
    assert_eq!(
        &bytes,
        b"BLK1\xef\xbe\xad\xde\x07\x00\x00\x00\x02\x00\x00\x00"
    );
    assert_eq!(BlockHeader::decode(&bytes).expect("decode"), header);
    let mut bad = bytes;
    bad[0] = b'X';
    assert_eq!(reason(BlockHeader::decode(&bad)), "magic de bloque");
    assert_eq!(
        reason(BlockHeader::decode(&bytes[..15])),
        "BlockHeader truncada"
    );

    let entry = IndexEntry {
        block_offset: 0x0102_0304_0506_0708,
        block_len: 9,
        first_key_len: 10,
    };
    let bytes = entry.encode().expect("encode");
    assert_eq!(
        &bytes,
        b"\x08\x07\x06\x05\x04\x03\x02\x01\x09\x00\x00\x00\x0a\x00\x00\x00"
    );
    assert_eq!(IndexEntry::decode(&bytes).expect("decode"), entry);
    assert_eq!(
        reason(IndexEntry::decode(&bytes[..3])),
        "IndexEntry truncada"
    );

    let footer = SstFooter {
        magic: SST_MAGIC,
        version: SST_VERSION,
        flags: 0,
        index_offset: 1,
        index_len: 2,
        bloom_offset: 3,
        bloom_len: 4,
        entry_count: 5,
        block_count: 6,
        min_seq: 7,
        max_seq: u64::MAX,
        checksum: 0,
        _pad: [0; 52],
    };
    let bytes = footer.encode().expect("encode");
    let back = SstFooter::decode(&bytes).expect("decode");
    assert_eq!(back.checksum, crc32fast::hash(&bytes[..72]));
    assert_eq!(
        back,
        SstFooter {
            checksum: back.checksum,
            ..footer
        }
    );
    assert_eq!(footer.encode_with(back.checksum), bytes);
}

#[test]
fn footer_errors() {
    let image = flush_memtable(&MemTable::new(64)).expect("flush");
    let tail = &image.bytes[image.bytes.len() - FOOTER_SIZE..];
    assert_eq!(reason(SstFooter::decode(&tail[..127])), "footer truncado");
    let mut bad = tail.to_vec();
    bad[0] = 0;
    assert_eq!(reason(SstFooter::decode(&bad)), "magic de footer");
    let mut bad = tail.to_vec();
    bad[4] = 2;
    assert_eq!(reason(SstFooter::decode(&bad)), "versión de SST");
    let mut bad = tail.to_vec();
    bad[40] ^= 1;
    assert_eq!(reason(SstFooter::decode(&bad)), "checksum de footer");
    assert_eq!(
        reason(SstFooter::decode_with(tail, 0)),
        "checksum de footer"
    );
}

#[test]
fn index_and_record_errors() {
    assert_eq!(reason(decode_index(&[0; 5])), "IndexEntry truncada");
    let mut index = vec![0u8; 16];
    index[12] = 3;
    index.extend_from_slice(b"ab");
    assert_eq!(reason(decode_index(&index)), "first-key truncada");

    let mut payload = Vec::new();
    encode_record(&mut payload, b"k", 4, 1, b"vv").expect("record");
    assert_eq!(
        payload,
        b"\x01\0\0\0\x02\0\0\0\x04\0\0\0\0\0\0\0\x01kvv"
    );
    assert_eq!(reason(decode_records(&payload[..10])), "registro truncado");
    assert_eq!(reason(decode_records(&payload[..17])), "clave truncada");
    assert_eq!(reason(decode_records(&payload[..19])), "valor truncado");
    let mut bad = payload.clone();
    bad[16] = 2;
    assert_eq!(reason(decode_records(&bad)), "tombstone con valor");
    bad[16] = 3;
    assert_eq!(reason(decode_records(&bad)), "kind de registro");
    assert_eq!(
        reason(scan_sorted_payload(&bad, b"k")),
        "kind de registro desconocido"
    );
    assert!(scan_sorted_payload(&bad, b"a").expect("scan").is_missing());
    assert!(scan_sorted_payload(&bad, b"z").expect("scan").is_missing());
}

#[test]
fn block_lookup_checks_the_crc() {
    let mut payload = Vec::new();
    encode_record(&mut payload, b"k", 4, 1, b"v").expect("record");
    let block = encode_block(&payload, 1, 77).expect("block");
    assert_eq!(
        lookup_with_crc(&block, 77, b"k").expect("get"),
        SstLookup::Alive {
            seq: SeqNum::new(4),
            value: b"v"
        }
    );
    assert_eq!(reason(lookup_with_crc(&block, 78, b"k")), "CRC de bloque");
    assert_eq!(
        reason(lookup_with_crc(&block[..20], 77, b"k")),
        "payload truncado"
    );
    assert_eq!(
        reason(lookup_with_crc(&block[..10], 77, b"k")),
        "BlockHeader truncada"
    );
}

#[test]
fn corrupt_block_is_an_error() {
    let mut table = MemTable::new(1024);
    table.put(key(b"k"), Value::new(b"v"), SeqNum::new(1));
    let image = flush_memtable(&table).expect("flush");
    let mut bad = image.bytes.clone();
    bad[34] ^= 1;
    let reader = SstReader::open(&bad).expect("open");
    assert_eq!(reason(reader.get(b"k")), "CRC de bloque");
    let mut bad = image.bytes.clone();
    bad[0] ^= 1;
    let reader = SstReader::open(&bad).expect("open");
    assert_eq!(reason(reader.get(b"k")), "magic de bloque");
}

#[test]
fn open_checks_what_the_footer_says() {
    let mut table = MemTable::new(1024);
    table.put(key(b"k"), Value::new(b"v"), SeqNum::new(1));
    let image = flush_memtable(&table).expect("flush");
    let footer = SstFooter::read_from_file(&image.bytes).expect("footer");
    let data = &image.bytes;
    let open = |footer: SstFooter| SstReader::with_footer(data, &footer);
    assert!(open(footer).is_ok());
    assert_eq!(
        reason(open(SstFooter {
            index_len: u64::MAX,
            ..footer
        })),
        "rango overflow"
    );
    assert_eq!(
        reason(open(SstFooter {
            bloom_offset: 1_000_000,
            ..footer
        })),
        "rango fuera del mmap"
    );
    assert_eq!(
        reason(open(SstFooter {
            block_count: 2,
            ..footer
        })),
        "block_count no coincide con el índice"
    );
    assert_eq!(
        reason(open(SstFooter {
            index_len: footer.index_len - 1,
            ..footer
        })),
        "first-key truncada"
    );
    assert!(matches!(
        open(SstFooter {
            bloom_len: 5,
            ..footer
        }),
        Err(Error::BloomCorrupt("cabecera truncada"))
    ));
}

#[test]
fn writer_options_are_checked() {
    let zero = SstWriteOptions {
        block_size: 0,
        bits_per_key: 10,
    };
    assert_eq!(
        reason(SstWriter::create_with(1, zero)),
        "block_size no puede ser 0"
    );
    let dense = SstWriteOptions {
        block_size: 1,
        bits_per_key: 17,
    };
    assert!(matches!(
        SstWriter::create_with(1, dense),
        Err(Error::BloomInvalid(_))
    ));
    let default = SstWriteOptions::default();
    assert_eq!(default.block_size, 4096);
    assert_eq!(default.bits_per_key, 10);
}

#[test]
fn writer_splits_blocks_at_the_target_size() {
    let opts = SstWriteOptions {
        block_size: 40,
        bits_per_key: 10,
    };
    let value = Value::new(b"v");
    let mut writer = SstWriter::create_with(4, opts).expect("create");
    for k in [b"a", b"b", b"c"] {
        writer
            .add(&key(k), SeqNum::new(1), MemValue::Put(&value))
            .expect("add");
    }
    let large = Value::from_vec(vec![7; 100]);
    writer
        .add(&key(b"d"), SeqNum::new(8), MemValue::Put(&large))
        .expect("add");
    writer
        .add(&key(b"e"), SeqNum::new(3), MemValue::Tombstone)
        .expect("add");
    let image = writer.finish().expect("finish");
    let footer = SstFooter::read_from_file(&image.bytes).expect("footer");
    let index = decode_index(read_at(
        &image,
        footer.index_offset,
        footer.index_len as usize,
    ))
    .expect("index");
    let firsts: Vec<&[u8]> = index.iter().map(|(first, _)| first.as_slice()).collect();
    let expected: Vec<&[u8]> = vec![b"a", b"c", b"d", b"e"];
    assert_eq!(firsts, expected);
    assert_eq!(footer.entry_count, 5);
    assert_eq!(footer.min_seq, 1);
    assert_eq!(footer.max_seq, 8);
    assert_eq!(image.meta.block_count, 4);
}

#[test]
fn every_key_of_a_large_table_is_found() {
    let mut table = MemTable::new(1 << 20);
    for i in 0..500_u64 {
        let k = key(format!("key/{:05}", i * 7 % 1000).as_bytes());
        if i % 5 == 0 {
            table.delete(k, SeqNum::new(i + 1));
        } else {
            table.put(k, Value::new(format!("{i}").as_bytes()), SeqNum::new(i + 1));
        }
    }
    let image = flush_memtable(&table).expect("flush");
    assert!(image.meta.block_count > 2);
    let reader = SstReader::open(&image.bytes).expect("open");
    for n in 0..1000_u64 {
        let name = format!("key/{n:05}");
        let mem = table.get(name.as_bytes());
        let sst = reader.get(name.as_bytes()).expect("get");
        assert_eq!(mem.is_missing(), sst.is_missing());
        assert_eq!(mem.value().map(Value::as_bytes), sst.value());
    }
}

#[test]
fn slots_match_the_decoded_index() {
    let mut table = MemTable::new(64 * 1024);
    for i in 0..8_u64 {
        let k = key(format!("k{i}").as_bytes());
        table.put(k, Value::new(b"xxxx"), SeqNum::new(i + 1));
    }
    let opts = SstWriteOptions {
        block_size: 40,
        bits_per_key: 10,
    };
    let image = flush_memtable_with(&table, opts).expect("flush");
    let footer = SstFooter::read_from_file(&image.bytes).expect("footer");
    let bytes = read_at(&image, footer.index_offset, footer.index_len as usize);
    let slots = parse_index(bytes, footer.index_offset).expect("slots");
    let entries = decode_index(bytes).expect("index");
    assert_eq!(slots.len(), entries.len());
    let mut last = 0;
    for (slot, (first, entry)) in slots.iter().zip(entries.iter()) {
        assert_eq!(slot.block_offset, entry.block_offset);
        assert_eq!(slot.block_len, entry.block_len);
        assert_eq!(slot.first_key_len, first.len());
        assert_eq!(
            read_at(&image, slot.first_key_off as u64, slot.first_key_len),
            first.as_slice()
        );
        assert!(slot.first_key_off > last);
        last = slot.first_key_off;
    }
    assert_eq!(slots[0].first_key_off as u64, footer.index_offset + 16);
}

#[test]
fn parse_index_errors() {
    assert_eq!(reason(parse_index(&[0; 5], 0)), "IndexEntry truncada");
    let mut index = vec![0u8; 16];
    index[12] = 3;
    index.extend_from_slice(b"ab");
    assert_eq!(reason(parse_index(&index, 0)), "first-key truncada");
    index.push(b'c');
    assert_eq!(parse_index(&index, 7).expect("slots")[0].first_key_off, 23);
    assert_eq!(
        reason(parse_index(&index, u64::MAX - 1)),
        "offset de first-key"
    );
    assert!(parse_index(b"", u64::MAX).expect("slots").is_empty());
}
