use nvme_state_db::index::bloom::{
    block_index, hash2, mask_is_subset, mask_is_subset_scalar, probe_mask, HEADER_LEN,
    WORDS_PER_BLOCK,
};
use nvme_state_db::index::Bloom;
use nvme_state_db::{Error, Key};

#[test]
fn empty_bloom_contains_nothing() {
    let bloom = Bloom::new(100, 10).expect("new");
    assert!(!bloom.may_contain(b"account/0xabc"));
    assert!(!bloom.may_contain(b""));
}

#[test]
fn insert_then_may_contain() {
    let mut bloom = Bloom::new(16, 10).expect("new");
    let key = Key::new(b"balance/0xabc").expect("key");
    bloom.insert(key.as_bytes());
    assert!(
        bloom.may_contain(key.as_bytes()),
        "falso negativo: una clave insertada tiene que dar true"
    );
}

#[test]
fn no_false_negatives_on_many_keys() {
    let n = 2_000_usize;
    let mut bloom = Bloom::new(n, 10).expect("new");
    let keys: Vec<Vec<u8>> = (0..n).map(|i| format!("k{i}").into_bytes()).collect();
    for k in &keys {
        bloom.insert(k);
    }
    for k in &keys {
        assert!(
            bloom.may_contain(k),
            "falso negativo en {}",
            String::from_utf8_lossy(k)
        );
    }
}

#[test]
fn false_positives_are_possible_but_rare() {
    let n = 1_000_usize;
    let mut bloom = Bloom::new(n, 10).expect("new");
    for i in 0..n {
        bloom.insert(format!("in{i}").as_bytes());
    }
    let probes = 1_000_usize;
    let fps = (0..probes)
        .filter(|i| bloom.may_contain(format!("out{i}").as_bytes()))
        .count();
    assert!(
        fps < probes / 2,
        "demasiados falsos positivos: {fps}/{probes}"
    );
}

#[test]
fn roundtrip_bytes_preserves_membership() {
    let mut bloom = Bloom::new(64, 8).expect("new");
    bloom.insert(b"alpha");
    bloom.insert(b"beta");
    let bytes = bloom.to_bytes().expect("ser");
    assert!(bytes.len() > HEADER_LEN);
    let restored = Bloom::from_bytes(&bytes).expect("de");
    assert_eq!(restored.k(), bloom.k());
    assert_eq!(restored.num_blocks(), bloom.num_blocks());
    assert!(restored.may_contain(b"alpha"));
    assert!(restored.may_contain(b"beta"));
    assert!(!restored.may_contain(b"no-estoy"));
}

#[test]
fn from_bytes_rejects_bad_magic() {
    let mut bloom = Bloom::new(8, 8).expect("new");
    bloom.insert(b"x");
    let mut bytes = bloom.to_bytes().expect("ser");
    bytes[0] = b'X';
    let err = match Bloom::from_bytes(&bytes) {
        Err(err) => err,
        Ok(_) => panic!("magic"),
    };
    assert!(matches!(err, Error::BloomCorrupt(_)));
}

#[test]
fn from_bytes_rejects_each_bad_field() {
    let bytes = Bloom::new(8, 8).expect("new").to_bytes().expect("ser");
    let reason = |bytes: &[u8]| match Bloom::from_bytes(bytes) {
        Err(Error::BloomCorrupt(reason)) => reason,
        _ => panic!("esperado BloomCorrupt"),
    };
    assert_eq!(reason(&bytes[..11]), "cabecera truncada");
    let mut bad = bytes.clone();
    bad[3] = b'2';
    assert_eq!(reason(&bad), "magic inválida");
    let mut bad = bytes.clone();
    bad[4] = 9;
    assert_eq!(reason(&bad), "k fuera de rango");
    let mut bad = bytes.clone();
    bad[5] = 0;
    assert_eq!(reason(&bad), "bits_per_key fuera de rango");
    let mut bad = bytes.clone();
    bad[8] = 0;
    assert_eq!(reason(&bad), "num_blocks inválido");
    let mut bad = bytes.clone();
    bad[8] = 2;
    assert_eq!(reason(&bad), "tamaño de bitmap");
}

#[test]
fn serialized_layout_is_fixed() {
    let bytes = Bloom::new(64, 8).expect("new").to_bytes().expect("ser");
    assert_eq!(&bytes[..12], b"BLM1\x08\x08\x00\x00\x02\x00\x00\x00");
    assert_eq!(bytes.len(), 12 + 2 * 32);
    assert!(bytes[12..].iter().all(|b| *b == 0));
}

#[test]
fn new_rejects_bad_bits_per_key() {
    assert!(matches!(Bloom::new(10, 0), Err(Error::BloomInvalid(_))));
    assert!(matches!(Bloom::new(10, 17), Err(Error::BloomInvalid(_))));
}

#[test]
fn new_sizes_the_filter() {
    assert_eq!(Bloom::new(0, 10).expect("0").num_blocks(), 1);
    assert_eq!(Bloom::new(25, 10).expect("25").num_blocks(), 1);
    assert_eq!(Bloom::new(26, 10).expect("26").num_blocks(), 2);
    assert_eq!(Bloom::new(1000, 16).expect("1000").num_blocks(), 63);
    assert_eq!(Bloom::new(1, 4).expect("k").k(), 4);
    assert_eq!(Bloom::new(1, 16).expect("k").k(), 8);
    assert!(matches!(
        Bloom::new(usize::MAX, 16),
        Err(Error::BloomInvalid("filtro demasiado grande"))
    ));
}

#[test]
fn insert_twice_changes_nothing() {
    let mut once = Bloom::new(64, 8).expect("new");
    once.insert(b"alpha");
    let first = once.to_bytes().expect("ser");
    once.insert(b"alpha");
    assert_eq!(once.to_bytes().expect("ser"), first);
    let set: u32 = first[12..].iter().map(|b| b.count_ones()).sum();
    assert!((1..=8).contains(&set));
}

#[test]
fn hash2_is_stable_and_h2_odd() {
    let (a, b) = hash2(b"same");
    let (c, d) = hash2(b"same");
    assert_eq!((a, b), (c, d));
    assert_eq!(b & 1, 1);
    assert_ne!(hash2(b"same"), hash2(b"other"));
}

#[test]
fn block_index_is_a_remainder() {
    assert_eq!(block_index(17, 5), 2);
    assert_eq!(block_index(u64::MAX, 1), 0);
    assert_eq!(block_index(17, 0), 0);
}

#[test]
fn avx2_matches_scalar_when_available() {
    let mask = probe_mask(0x1234_5678_9ABC_DEF0, 0x1111_1111_1111_1111 | 1, 7);
    let mut block = [0_u64; WORDS_PER_BLOCK];
    for (w, m) in block.iter_mut().zip(mask.iter()) {
        *w |= *m;
    }
    assert!(mask_is_subset_scalar(&block, &mask));
    assert!(mask_is_subset(&block, &mask));
    block[0] &= !mask[0];
    if mask[0] != 0 {
        assert!(!mask_is_subset_scalar(&block, &mask));
        assert!(!mask_is_subset(&block, &mask));
    }
    let full = probe_mask(1, 3, 8);
    let present = full;
    assert!(mask_is_subset(&present, &full));
    let mut missing = present;
    missing[0] = 0;
    missing[1] = 0;
    missing[2] = 0;
    missing[3] = 0;
    assert!(!mask_is_subset(&missing, &full));
}

#[test]
fn hashes_and_masks_have_fixed_values() {
    assert_eq!(
        hash2(b"same"),
        (0x1062_750d_b5b6_a1d6, 0x9457_50b1_783a_a591)
    );
    assert_eq!(
        hash2(b"account/0xabc"),
        (0x95bd_a2f8_cd35_21ff, 0x990c_b08b_d611_95fd)
    );
    assert_eq!(hash2(b""), (0x6f68_261b_57e7_a770, 0xce48_7ba0_cf8a_d6b9));
    assert_eq!(probe_mask(1, 3, 8), [0x0049_2492, 0, 0, 0]);
    assert_eq!(
        probe_mask(250, 7, 3),
        [0x102, 0, 0, 0x0400_0000_0000_0000]
    );
}
