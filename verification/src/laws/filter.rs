//! The Bloom filter: when there is one, which bits a key sets and asks for, and its
//! bytes.

use crate::bytes::{
    le_bytes, le_nat, lemma_fixed_width, lemma_le_bytes_len, lemma_le_bytes_of_nat, lemma_number_at,
    u32_at, u64_at,
};
use crate::error::Error;
use crate::index::bloom::{
    absorbed, blocks_needed, is_subset, key_hashes, law_bytes_roundtrip, law_mask_bits,
    lemma_words_bytes, mask_word, new_filter, parse_filter, probe_bit, word_bit, words_bytes, Filter,
};
use vstd::prelude::*;

verus! {

// ---------------------------------------------------------------------------
// New filters
// ---------------------------------------------------------------------------

/// A filter has the fewest blocks of 256 bits that hold all bits of all keys, and at
/// least one.
pub proof fn law_blocks_are_enough(keys: nat, bits: nat)
    ensures
        blocks_needed(keys, bits) >= 1,
        256 * blocks_needed(keys, bits) >= keys * bits,
        blocks_needed(keys, bits) > 1 ==> 256 * (blocks_needed(keys, bits) - 1) < keys * bits,
{
}

/// There is a filter whenever the density is 1 to 16 and the bits of all keys fit
/// the limit of 8 Mi words of 64 bits; no bit of it is set, it has room for all bits,
/// and a key sets as many bits as its share, at most 8.
pub proof fn law_filter_exists_within_limit(keys: nat, bits_per_key: u8)
    requires
        1 <= bits_per_key <= 16,
        keys * (bits_per_key as nat) <= 64 * 8388608,
    ensures
        new_filter(keys, bits_per_key) is Ok,
        ({
            let f = new_filter(keys, bits_per_key)->Ok_0;
            &&& f.words.len() % 4 == 0
            &&& 4 <= f.words.len() <= 8388608
            &&& 64 * f.words.len() >= keys * (bits_per_key as nat)
            &&& f.words.len() > 4 ==> 64 * (f.words.len() - 4) < keys * (bits_per_key as nat)
            &&& forall|i: int| 0 <= i < f.words.len() ==> #[trigger] f.words[i] == 0
            &&& f.bits_per_key == bits_per_key
            &&& f.k == if bits_per_key < 8 {
                bits_per_key
            } else {
                8
            }
        }),
{
    law_blocks_are_enough(keys, bits_per_key as nat);
}

/// There is no filter of another density, and none whose bits exceed the limit.
pub proof fn law_filter_refusals(keys: nat, bits_per_key: u8)
    ensures
        bits_per_key == 0 || bits_per_key > 16 ==> new_filter(keys, bits_per_key) == Err::<
            Filter,
            Error,
        >(Error::BloomInvalid("bits_per_key debe estar en 1..=16")),
        1 <= bits_per_key <= 16 && keys * (bits_per_key as nat) > 64 * 8388608 ==> new_filter(
            keys,
            bits_per_key,
        ) == Err::<Filter, Error>(Error::BloomInvalid("filtro demasiado grande")),
{
    law_blocks_are_enough(keys, bits_per_key as nat);
}

/// What holds of every filter: 1 to 8 bits per key set, a density of 1 to 16, and
/// whole blocks of four words, at least one block, at most 8 Mi words.
pub proof fn law_filter_bounds(f: Filter)
    ensures
        f.valid() <==> 1 <= f.k <= 8 && 1 <= f.bits_per_key <= 16 && f.words.len() % 4 == 0 && 4
            <= f.words.len() <= 8388608,
        f.blocks() == f.words.len() / 4,
{
}

// ---------------------------------------------------------------------------
// Hashes
// ---------------------------------------------------------------------------

/// The hashes of a key begin with its length, take in its bytes, and are mixed at the
/// end; the second is made odd.
pub proof fn law_hash_frame(key: Seq<u8>)
    ensures
        ({
            let n = key.len() as u64;
            let start_b = 0xC2B2_AE3D_27D4_EB4Fu64 ^ ((n << 17u64) | (n >> 47u64));
            let (a, b) = absorbed(0x9E37_79B9_7F4A_7C15u64 ^ n, start_b, key);
            &&& key_hashes(key).0 == (a ^ (a >> 30u64)).wrapping_mul(0xBF58_476D_1CE4_E5B9u64)
            &&& key_hashes(key).1 == (b ^ (b >> 27u64)).wrapping_mul(0x94D0_49BB_1331_11EBu64) | 1
        }),
{
}

/// Eight bytes at a time are mixed into both hashes; every byte of a key counts.
pub proof fn law_hash_takes_words(a: u64, b: u64, word: Seq<u8>, rest: Seq<u8>)
    requires
        word.len() == 8,
    ensures
        ({
            let x = u64_at(word, 0);
            let y = a.wrapping_add(x);
            let a2 = ((y << 13u64) | (y >> 51u64)).wrapping_mul(0xBF58_476D_1CE4_E5B9u64);
            let z = b ^ x.wrapping_add(a2);
            let b2 = ((z << 29u64) | (z >> 35u64)).wrapping_mul(0x94D0_49BB_1331_11EBu64);
            absorbed(a, b, word + rest) == absorbed(a2, b2, rest)
        }),
{
    let key = word + rest;
    assert(key.subrange(0, 8) =~= word.subrange(0, 8));
    assert(key.skip(8) =~= rest);
}

/// The last bytes, fewer than eight, count as one number.
pub proof fn law_hash_takes_rest(a: u64, b: u64, rest: Seq<u8>)
    requires
        rest.len() < 8,
    ensures
        rest.len() > 0 ==> absorbed(a, b, rest) == (
            a ^ (le_nat(rest) as u64),
            b.wrapping_add(le_nat(rest) as u64),
        ),
        rest.len() == 0 ==> absorbed(a, b, rest) == (a, b),
{
}

// ---------------------------------------------------------------------------
// Bits
// ---------------------------------------------------------------------------

/// Probe `i` of a key: bit `h1 + i * h2` of its block, counted round.
pub open spec fn probe(key: Seq<u8>, i: int) -> int {
    let (h1, h2) = key_hashes(key);
    h1.wrapping_add((i as u64).wrapping_mul(h2)) as int % 256
}

/// The first word of the block of a key: the first hash chooses the block.
pub open spec fn first_word(f: Filter, key: Seq<u8>) -> int {
    4 * (key_hashes(key).0 as int % (f.words.len() / 4) as int)
}

/// A key may be in a filter iff each of its `k` probes finds its bit set.
pub proof fn law_membership_is_bits(f: Filter, key: Seq<u8>)
    requires
        f.valid(),
    ensures
        f.may_contain(key) <==> forall|i: int|
            0 <= i < f.k ==> word_bit(
                f.words[first_word(f, key) + #[trigger] probe(key, i) / 64],
                (probe(key, i) % 64) as u64,
            ),
{
    let (h1, h2) = key_hashes(key);
    let base = first_word(f, key);
    assert(base == 4 * f.block_of(key));
    let k = f.k as nat;
    assert forall|w: int| 0 <= w < 4 implies #[trigger] covers(f.words[base + w], h1, h2, k, w)
        == (f.words[base + w] & f.mask(key, w) == f.mask(key, w)) by {
        lemma_subset_bits(f.words[base + w], h1, h2, k, w);
    }
    if f.may_contain(key) {
        assert forall|i: int| 0 <= i < f.k implies word_bit(
            f.words[base + #[trigger] probe(key, i) / 64],
            (probe(key, i) % 64) as u64,
        ) by {
            let w = probe(key, i) / 64;
            assert(f.words[4 * f.block_of(key) + w] & f.mask(key, w) == f.mask(key, w));
            assert(covers(f.words[base + w], h1, h2, k, w));
            assert(probe_bit(h1, h2, i) == probe(key, i));
        }
    }
    if forall|i: int|
        0 <= i < f.k ==> word_bit(
            f.words[base + #[trigger] probe(key, i) / 64],
            (probe(key, i) % 64) as u64,
        ) {
        assert forall|w: int| 0 <= w < 4 implies f.words[4 * f.block_of(key) + w]
            & #[trigger] f.mask(key, w) == f.mask(key, w) by {
            assert forall|i: int|
                0 <= i < k && #[trigger] probe_bit(h1, h2, i) / 64 == w implies word_bit(
                f.words[base + w],
                (probe_bit(h1, h2, i) % 64) as u64,
            ) by {
                assert(probe(key, i) == probe_bit(h1, h2, i));
            }
            assert(covers(f.words[base + w], h1, h2, k, w));
        }
    }
}

spec fn covers(word: u64, h1: u64, h2: u64, k: nat, w: int) -> bool {
    forall|i: int|
        0 <= i < k && #[trigger] probe_bit(h1, h2, i) / 64 == w ==> word_bit(
            word,
            (probe_bit(h1, h2, i) % 64) as u64,
        )
}

proof fn lemma_subset_bits(word: u64, h1: u64, h2: u64, k: nat, w: int)
    ensures
        covers(word, h1, h2, k, w) == (word & mask_word(h1, h2, k, w) == mask_word(h1, h2, k, w)),
    decreases k,
{
    if k == 0 {
        assert(word & 0 == 0) by (bit_vector);
    } else {
        lemma_subset_bits(word, h1, h2, (k - 1) as nat, w);
        let m = mask_word(h1, h2, (k - 1) as nat, w);
        let bit = probe_bit(h1, h2, k - 1);
        let p = (bit % 64) as u64;
        if bit / 64 == w {
            assert((word & (m | (1u64 << p)) == (m | (1u64 << p))) <==> (word & m == m && (word
                >> p) & 1 == 1)) by (bit_vector)
                requires
                    p < 64,
            ;
        }
        if covers(word, h1, h2, (k - 1) as nat, w) && (bit / 64 == w ==> word_bit(word, p)) {
            assert(covers(word, h1, h2, k, w));
        }
        if covers(word, h1, h2, k, w) {
            assert(covers(word, h1, h2, (k - 1) as nat, w));
        }
    }
}

/// Inserting a key sets the bits of its probes and no other, and leaves size and
/// parameters.
pub proof fn law_insert_sets_probes(f: Filter, key: Seq<u8>, word: int, bit: u64)
    requires
        f.valid(),
        0 <= word < f.words.len(),
        bit < 64,
    ensures
        f.insert(key).words.len() == f.words.len(),
        f.insert(key).k == f.k,
        f.insert(key).bits_per_key == f.bits_per_key,
        word_bit(f.insert(key).words[word], bit) <==> word_bit(f.words[word], bit) || exists|i: int|
            0 <= i < f.k && first_word(f, key) + #[trigger] probe(key, i) / 64 == word
                && probe(key, i) % 64 == bit,
{
    let (h1, h2) = key_hashes(key);
    let k = f.k as nat;
    let base = first_word(f, key);
    assert(base == 4 * f.block_of(key));
    if word / 4 == f.block_of(key) {
        let w = word % 4;
        let b = 64 * w + bit as int;
        let x = f.words[word];
        let m = f.mask(key, w);
        law_mask_bits(h1, h2, k, b);
        assert(b / 64 == w && b % 64 == bit);
        assert((((x | m) >> bit) & 1 == 1) <==> ((x >> bit) & 1 == 1 || (m >> bit) & 1 == 1))
            by (bit_vector)
            requires
                bit < 64,
        ;
        if word_bit(m, bit) {
            let i = choose|i: int| 0 <= i < k && #[trigger] probe_bit(h1, h2, i) == b;
            assert(probe(key, i) == b);
        }
        if exists|i: int|
            0 <= i < f.k && base + #[trigger] probe(key, i) / 64 == word && probe(key, i)
                % 64 == bit {
            let i = choose|i: int|
                0 <= i < f.k && base + #[trigger] probe(key, i) / 64 == word && probe(
                    key,
                    i,
                ) % 64 == bit;
            assert(probe_bit(h1, h2, i) == b);
        }
    }
}

/// One block holds a mask iff each of its four words does.
pub proof fn law_subset(block: Seq<u64>, mask: Seq<u64>)
    requires
        block.len() == 4,
        mask.len() == 4,
    ensures
        is_subset(block, mask) <==> block[0] & mask[0] == mask[0] && block[1] & mask[1] == mask[1]
            && block[2] & mask[2] == mask[2] && block[3] & mask[3] == mask[3],
{
    if is_subset(block, mask) {
        assert(mask[0] == mask[0] && mask[1] == mask[1] && mask[2] == mask[2] && mask[3]
            == mask[3]);
    }
}

// ---------------------------------------------------------------------------
// Bytes
// ---------------------------------------------------------------------------

/// Where the parts of a serialized filter lie: `BLM1`, `k`, the density, two zeros,
/// the number of blocks, the words.
pub proof fn law_filter_layout(f: Filter)
    requires
        f.valid(),
    ensures
        ({
            let b = f.to_bytes();
            &&& b.len() == 12 + 8 * f.words.len()
            &&& b.take(8) == seq![66u8, 76u8, 77u8, 49u8, f.k, f.bits_per_key, 0u8, 0u8]
            &&& u32_at(b, 8) == f.words.len() / 4
            &&& forall|i: int|
                0 <= i < f.words.len() ==> #[trigger] f.words[i] == u64_at(b, 12 + 8 * i)
        }),
{
    let b = f.to_bytes();
    law_bytes_roundtrip(f);
    lemma_le_bytes_len(f.blocks(), 4);
    assert(b.take(8) =~= seq![66u8, 76u8, 77u8, 49u8, f.k, f.bits_per_key, 0u8, 0u8]);
    assert(b.subrange(8, 12) =~= le_bytes(f.blocks(), 4));
    lemma_number_at(b, 8, f.blocks(), 4);
    let parsed = parse_filter(b)->Ok_0;
    assert forall|i: int| 0 <= i < f.words.len() implies #[trigger] f.words[i] == u64_at(
        b,
        12 + 8 * i,
    ) by {
        assert(parsed.words[i] == u64_at(b, 12 + 8 * i));
    }
}

/// What reads as a filter is the bytes of that filter, but for the two bytes that are
/// kept free.
pub proof fn law_filter_is_what_it_says(bytes: Seq<u8>, f: Filter)
    requires
        parse_filter(bytes) == Ok::<Filter, Error>(f),
    ensures
        f.valid(),
        bytes.len() == f.to_bytes().len(),
        forall|i: int|
            0 <= i < bytes.len() && i != 6 && i != 7 ==> #[trigger] bytes[i] == f.to_bytes()[i],
{
    let blocks = u32_at(bytes, 8) as nat;
    let b = f.to_bytes();
    assert(f.words.len() == 4 * blocks);
    law_filter_layout(f);
    lemma_fixed_width(bytes, 8);
    lemma_le_bytes_of_nat(bytes.subrange(8, 12));
    lemma_le_bytes_len(f.blocks(), 4);
    lemma_words_bytes(f.words);
    let magic = bytes.subrange(0, 4);
    assert(magic == seq![66u8, 76u8, 77u8, 49u8]);
    assert forall|i: int| 0 <= i < bytes.len() && i != 6 && i != 7 implies #[trigger] bytes[i]
        == b[i] by {
        if i < 4 {
            assert(magic[i] == bytes[i]);
            assert(b.take(8)[i] == b[i]);
        } else if i < 8 {
            assert(b.take(8)[i] == b[i]);
        } else if i < 12 {
            assert(bytes.subrange(8, 12)[i - 8] == bytes[i]);
            assert(b.subrange(8, 12) =~= le_bytes(f.blocks(), 4));
            assert(b.subrange(8, 12)[i - 8] == b[i]);
        } else {
            let w = (i - 12) / 8;
            let o = (i - 12) % 8;
            let at = 12 + 8 * w;
            lemma_fixed_width(bytes, at);
            lemma_le_bytes_of_nat(bytes.subrange(at, at + 8));
            assert(f.words[w] == u64_at(bytes, at));
            assert(words_bytes(f.words).subrange(8 * w, 8 * w + 8) == le_bytes(
                f.words[w] as nat,
                8,
            ));
            assert(b.subrange(at, at + 8) =~= words_bytes(f.words).subrange(8 * w, 8 * w + 8));
            assert(bytes.subrange(at, at + 8)[o] == bytes[i]);
            assert(b.subrange(at, at + 8)[o] == b[i]);
        }
    }
}

/// Which bytes are no filter, and what is wrong with them; all others are one.
pub proof fn law_filter_reading(bytes: Seq<u8>)
    ensures
        ({
            let r = parse_filter(bytes);
            let magic = bytes[0] == 66 && bytes[1] == 76 && bytes[2] == 77 && bytes[3] == 49;
            let blocks = u32_at(bytes, 8) as int;
            &&& bytes.len() < 12 ==> r == Err::<Filter, Error>(
                Error::BloomCorrupt("cabecera truncada"),
            )
            &&& bytes.len() >= 12 && !magic ==> r == Err::<Filter, Error>(
                Error::BloomCorrupt("magic inválida"),
            )
            &&& bytes.len() >= 12 && magic ==> {
                &&& bytes[4] == 0 || bytes[4] > 8 ==> r == Err::<Filter, Error>(
                    Error::BloomCorrupt("k fuera de rango"),
                )
                &&& 1 <= bytes[4] <= 8 ==> {
                    &&& bytes[5] == 0 || bytes[5] > 16 ==> r == Err::<Filter, Error>(
                        Error::BloomCorrupt("bits_per_key fuera de rango"),
                    )
                    &&& 1 <= bytes[5] <= 16 ==> {
                        &&& blocks == 0 || blocks > 2097152 ==> r == Err::<Filter, Error>(
                            Error::BloomCorrupt("num_blocks inválido"),
                        )
                        &&& 1 <= blocks <= 2097152 && bytes.len() != 12 + 32 * blocks ==> r
                            == Err::<Filter, Error>(Error::BloomCorrupt("tamaño de bitmap"))
                        &&& 1 <= blocks <= 2097152 && bytes.len() == 12 + 32 * blocks ==> r is Ok
                    }
                }
            }
        }),
{
    if bytes.len() >= 12 {
        let head = bytes.subrange(0, 4);
        let magic = seq![66u8, 76u8, 77u8, 49u8];
        assert(head[0] == bytes[0] && head[1] == bytes[1] && head[2] == bytes[2] && head[3]
            == bytes[3]);
        assert(magic[0] == 66 && magic[1] == 76 && magic[2] == 77 && magic[3] == 49);
        assert(crate::index::bloom::bloom_magic() =~= magic);
        if bytes[0] == 66 && bytes[1] == 76 && bytes[2] == 77 && bytes[3] == 49 {
            assert(head =~= magic);
        }
    }
}

} // verus!
