//! A Bloom filter in blocks of 256 bits.
//!
//! Before a table is read, the filter is asked for the key: `false` means that
//! the key is not there, so nothing has to be read; `true` means that it may be.
//! All bits of one key lie in one block of four words, so that a query touches a
//! single block.

use crate::bytes::{
    le_bytes, le_nat, lemma_le_bytes_len, lemma_le_roundtrip, lemma_pow256_values, push_le,
    read_le, read_u32, read_u64, u32_at, u64_at,
};
use crate::error::Error;
use vstd::prelude::*;

verus! {

/// Bits of a block.
pub const BLOCK_BITS: usize = 256;

/// Words of a block.
pub const WORDS_PER_BLOCK: usize = 4;

/// The largest bitmap, in words.
pub const MAX_WORDS: usize = 8388608;

/// Bytes of the serialized header.
pub const HEADER_LEN: usize = 12;

/// `BLM1`.
pub open spec fn bloom_magic() -> Seq<u8> {
    seq![66u8, 76u8, 77u8, 49u8]
}

// ---------------------------------------------------------------------------
// The two hashes of a key
// ---------------------------------------------------------------------------

/// `x` rotated left by `r` bits.
pub open spec fn rotated(x: u64, r: u64) -> u64 {
    (x << r) | (x >> ((64 - r) as u64))
}

/// The state of the hashes after one more word.
pub open spec fn mixed(a: u64, b: u64, x: u64) -> (u64, u64) {
    let a2 = rotated(a.wrapping_add(x), 13).wrapping_mul(0xBF58_476D_1CE4_E5B9u64);
    let b2 = rotated(b ^ x.wrapping_add(a2), 29).wrapping_mul(0x94D0_49BB_1331_11EBu64);
    (a2, b2)
}

/// The state of the hashes after `key`: whole words first, then the remaining
/// bytes as one short word.
pub open spec fn absorbed(a: u64, b: u64, key: Seq<u8>) -> (u64, u64)
    decreases key.len(),
{
    if key.len() >= 8 {
        let (a2, b2) = mixed(a, b, u64_at(key, 0));
        absorbed(a2, b2, key.skip(8))
    } else if key.len() > 0 {
        let x = le_nat(key) as u64;
        (a ^ x, b.wrapping_add(x))
    } else {
        (a, b)
    }
}

/// The two hashes of `key`; the second is odd.
pub open spec fn key_hashes(key: Seq<u8>) -> (u64, u64) {
    let n = key.len() as u64;
    let (a, b) = absorbed(
        0x9E37_79B9_7F4A_7C15u64 ^ n,
        0xC2B2_AE3D_27D4_EB4Fu64 ^ rotated(n, 17),
        key,
    );
    let a2 = (a ^ (a >> 30u64)).wrapping_mul(0xBF58_476D_1CE4_E5B9u64);
    let b2 = (b ^ (b >> 27u64)).wrapping_mul(0x94D0_49BB_1331_11EBu64);
    (a2, b2 | 1)
}

fn rotate(x: u64, r: u64) -> (y: u64)
    requires
        0 < r < 64,
    ensures
        y == rotated(x, r),
{
    (x << r) | (x >> (64 - r))
}

fn mix(a: u64, b: u64, x: u64) -> (r: (u64, u64))
    ensures
        r == mixed(a, b, x),
{
    let a2: u64 = rotate(a.wrapping_add(x), 13).wrapping_mul(0xBF58_476D_1CE4_E5B9u64);
    let b2: u64 = rotate(b ^ x.wrapping_add(a2), 29).wrapping_mul(0x94D0_49BB_1331_11EBu64);
    (a2, b2)
}

/// Two 64-bit hashes of `key`; the second is odd.
pub fn hash2(key: &[u8]) -> (r: (u64, u64))
    ensures
        r == key_hashes(key@),
        r.1 % 2 == 1,
{
    let n: u64 = key.len() as u64;
    let mut a: u64 = 0x9E37_79B9_7F4A_7C15u64 ^ n;
    let mut b: u64 = 0xC2B2_AE3D_27D4_EB4Fu64 ^ rotate(n, 17);
    let ghost start = (a, b);
    let mut off: usize = 0;
    assert(key@.skip(0) =~= key@);
    while key.len() - off >= 8
        invariant
            off <= key.len(),
            absorbed(start.0, start.1, key@) == absorbed(a, b, key@.skip(off as int)),
        decreases key.len() - off,
    {
        let x: u64 = read_le(key, off, 8);
        let ghost rest = key@.skip(off as int);
        proof {
            assert(rest.subrange(0, 8) =~= key@.subrange(off as int, off + 8));
            assert(rest.skip(8) =~= key@.skip(off + 8));
        }
        let (a2, b2) = mix(a, b, x);
        a = a2;
        b = b2;
        off = off + 8;
    }
    if off < key.len() {
        let x: u64 = read_le(key, off, key.len() - off);
        assert(key@.subrange(off as int, key@.len() as int) =~= key@.skip(off as int));
        a = a ^ x;
        b = b.wrapping_add(x);
    }
    let a2: u64 = (a ^ (a >> 30u64)).wrapping_mul(0xBF58_476D_1CE4_E5B9u64);
    let b2: u64 = (b ^ (b >> 27u64)).wrapping_mul(0x94D0_49BB_1331_11EBu64);
    assert((b2 | 1) % 2 == 1) by (bit_vector);
    (a2, b2 | 1)
}

// ---------------------------------------------------------------------------
// The bits of a key
// ---------------------------------------------------------------------------

/// The bit within its block that the `i`-th probe of a key touches.
pub open spec fn probe_bit(h1: u64, h2: u64, i: int) -> int {
    h1.wrapping_add((i as u64).wrapping_mul(h2)) as int % 256
}

/// Bit `b` of a word.
pub open spec fn word_bit(w: u64, b: u64) -> bool {
    (w >> b) & 1 == 1
}

/// Word `w` of the mask of the first `k` probes.
pub open spec fn mask_word(h1: u64, h2: u64, k: nat, w: int) -> u64
    decreases k,
{
    if k == 0 {
        0
    } else {
        let before = mask_word(h1, h2, (k - 1) as nat, w);
        let bit = probe_bit(h1, h2, k - 1);
        if bit / 64 == w {
            before | (1u64 << ((bit % 64) as u64))
        } else {
            before
        }
    }
}

/// A bit of the mask is set iff one of the probes touches it.
pub proof fn law_mask_bits(h1: u64, h2: u64, k: nat, b: int)
    requires
        0 <= b < 256,
    ensures
        word_bit(mask_word(h1, h2, k, b / 64), (b % 64) as u64) <==> exists|i: int|
            0 <= i < k && #[trigger] probe_bit(h1, h2, i) == b,
    decreases k,
{
    let o = (b % 64) as u64;
    if k == 0 {
        assert((0u64 >> o) & 1 == 0) by (bit_vector);
    } else {
        law_mask_bits(h1, h2, (k - 1) as nat, b);
        let before = mask_word(h1, h2, (k - 1) as nat, b / 64);
        let bit = probe_bit(h1, h2, k - 1);
        let p = (bit % 64) as u64;
        if bit / 64 == b / 64 {
            assert((((before | (1u64 << p)) >> o) & 1 == 1) <==> ((before >> o) & 1 == 1 || o
                == p)) by (bit_vector)
                requires
                    o < 64,
                    p < 64,
            ;
        }
        if bit == b {
            assert(probe_bit(h1, h2, k - 1) == b);
        }
    }
}

/// Some bit of the mask is set.
proof fn lemma_mask_nonzero(h1: u64, h2: u64, k: nat) -> (w: int)
    requires
        k > 0,
    ensures
        0 <= w < 4,
        mask_word(h1, h2, k, w) != 0,
{
    let bit = probe_bit(h1, h2, k - 1);
    let before = mask_word(h1, h2, (k - 1) as nat, bit / 64);
    let p = (bit % 64) as u64;
    assert(before | (1u64 << p) != 0) by (bit_vector)
        requires
            p < 64,
    ;
    bit / 64
}

// ---------------------------------------------------------------------------
// The filter
// ---------------------------------------------------------------------------

/// A filter as a mathematical value: its bitmap in words of 64 bits, the number
/// of bits that a key sets, and the density that it was built for.
#[verifier::ext_equal]
pub struct Filter {
    pub words: Seq<u64>,
    pub k: u8,
    pub bits_per_key: u8,
}

impl Filter {
    /// The number of blocks.
    pub open spec fn blocks(self) -> nat {
        self.words.len() / 4
    }

    /// Parameters in range and a bitmap of whole blocks.
    pub open spec fn valid(self) -> bool {
        &&& 1 <= self.k <= 8
        &&& 1 <= self.bits_per_key <= 16
        &&& self.words.len() % 4 == 0
        &&& 4 <= self.words.len() <= MAX_WORDS
    }

    /// A filter of `blocks` blocks with no bit set.
    pub open spec fn empty(blocks: nat, k: u8, bits_per_key: u8) -> Filter {
        Filter { words: Seq::new(4 * blocks, |i: int| 0u64), k, bits_per_key }
    }

    /// The block in which the bits of `key` lie.
    pub open spec fn block_of(self, key: Seq<u8>) -> int {
        key_hashes(key).0 as int % self.blocks() as int
    }

    /// Word `w` of the mask of `key`.
    pub open spec fn mask(self, key: Seq<u8>, w: int) -> u64 {
        let (h1, h2) = key_hashes(key);
        mask_word(h1, h2, self.k as nat, w)
    }

    /// The filter with the bits of `key` set.
    pub open spec fn insert(self, key: Seq<u8>) -> Filter {
        Filter {
            words: Seq::new(
                self.words.len(),
                |i: int|
                    if i / 4 == self.block_of(key) {
                        self.words[i] | self.mask(key, i % 4)
                    } else {
                        self.words[i]
                    },
            ),
            ..self
        }
    }

    /// All bits of `key` are set.
    pub open spec fn may_contain(self, key: Seq<u8>) -> bool {
        forall|w: int|
            #![trigger self.mask(key, w)]
            0 <= w < 4 ==> self.words[4 * self.block_of(key) + w] & self.mask(key, w) == self.mask(
                key,
                w,
            )
    }

    /// The filter with the bits of all of `keys` set.
    pub open spec fn insert_all(self, keys: Seq<Seq<u8>>) -> Filter
        decreases keys.len(),
    {
        if keys.len() == 0 {
            self
        } else {
            self.insert_all(keys.drop_last()).insert(keys.last())
        }
    }

    /// The serialized filter: magic, `k`, density, two reserved bytes, the number
    /// of blocks, and the words.
    pub open spec fn to_bytes(self) -> Seq<u8> {
        bloom_magic() + seq![self.k, self.bits_per_key, 0u8, 0u8] + le_bytes(self.blocks(), 4)
            + words_bytes(self.words)
    }
}

/// The little-endian bytes of a row of words.
pub open spec fn words_bytes(words: Seq<u64>) -> Seq<u8>
    decreases words.len(),
{
    if words.len() == 0 {
        seq![]
    } else {
        words_bytes(words.drop_last()) + le_bytes(words.last() as nat, 8)
    }
}

/// What the bytes of a serialized filter stand for.
pub open spec fn parse_filter(bytes: Seq<u8>) -> Result<Filter, Error> {
    let blocks = u32_at(bytes, 8) as nat;
    if bytes.len() < HEADER_LEN {
        Err(Error::BloomCorrupt("cabecera truncada"))
    } else if bytes.subrange(0, 4) != bloom_magic() {
        Err(Error::BloomCorrupt("magic inválida"))
    } else if !(1 <= bytes[4] <= 8) {
        Err(Error::BloomCorrupt("k fuera de rango"))
    } else if !(1 <= bytes[5] <= 16) {
        Err(Error::BloomCorrupt("bits_per_key fuera de rango"))
    } else if blocks == 0 || 4 * blocks > MAX_WORDS {
        Err(Error::BloomCorrupt("num_blocks inválido"))
    } else if bytes.len() != HEADER_LEN + 32 * blocks {
        Err(Error::BloomCorrupt("tamaño de bitmap"))
    } else {
        Ok(
            Filter {
                words: Seq::new(4 * blocks, |i: int| u64_at(bytes, 12 + 8 * i)),
                k: bytes[4],
                bits_per_key: bytes[5],
            },
        )
    }
}

/// The number of blocks of a filter for `expected_keys` keys at `bits_per_key`
/// bits each: enough for all bits, and at least one.
pub open spec fn blocks_needed(expected_keys: nat, bits_per_key: nat) -> nat {
    let bits = expected_keys * bits_per_key;
    if bits <= 256 {
        1
    } else {
        (bits + 255) / 256
    }
}

/// An empty filter for `expected_keys` keys at `bits_per_key` bits each; a key
/// sets as many bits as its share, at most 8.
pub open spec fn new_filter(expected_keys: nat, bits_per_key: u8) -> Result<Filter, Error> {
    let blocks = blocks_needed(expected_keys, bits_per_key as nat);
    if !(1 <= bits_per_key <= 16) {
        Err(Error::BloomInvalid("bits_per_key debe estar en 1..=16"))
    } else if 4 * blocks > MAX_WORDS {
        Err(Error::BloomInvalid("filtro demasiado grande"))
    } else {
        Ok(
            Filter::empty(
                blocks,
                if bits_per_key <= 8 {
                    bits_per_key
                } else {
                    8
                },
                bits_per_key,
            ),
        )
    }
}

// ---------------------------------------------------------------------------
// Laws
// ---------------------------------------------------------------------------

/// Setting the bits of a key keeps the filter valid, and keeps its size and
/// parameters.
pub proof fn law_insert_valid(f: Filter, key: Seq<u8>)
    requires
        f.valid(),
    ensures
        f.insert(key).valid(),
        f.insert(key).blocks() == f.blocks(),
{
}

/// No false negative: a key that was inserted is reported.
pub proof fn law_insert_then_may_contain(f: Filter, key: Seq<u8>)
    requires
        f.valid(),
    ensures
        f.insert(key).may_contain(key),
{
    let g = f.insert(key);
    let blk = f.block_of(key);
    lemma_block_range(f, key);
    assert(g.block_of(key) == blk);
    assert forall|w: int| 0 <= w < 4 implies g.words[4 * blk + w] & g.mask(key, w) == #[trigger] g.mask(
        key,
        w,
    ) by {
        let m = f.mask(key, w);
        let old_word = f.words[4 * blk + w];
        assert((4 * blk + w) / 4 == blk && (4 * blk + w) % 4 == w);
        assert(g.words[4 * blk + w] == old_word | m);
        assert((old_word | m) & m == m) by (bit_vector);
    }
}

/// A key that is reported stays reported, whatever is inserted afterwards.
pub proof fn law_insert_keeps_members(f: Filter, key: Seq<u8>, other: Seq<u8>)
    requires
        f.valid(),
        f.may_contain(key),
    ensures
        f.insert(other).may_contain(key),
{
    let g = f.insert(other);
    let blk = f.block_of(key);
    lemma_block_range(f, key);
    assert(g.block_of(key) == blk);
    assert forall|w: int| 0 <= w < 4 implies g.words[4 * blk + w] & g.mask(key, w) == #[trigger] g.mask(
        key,
        w,
    ) by {
        let m = f.mask(key, w);
        let i = 4 * blk + w;
        let x = f.words[i];
        assert(x & m == m);
        let y = f.mask(other, i % 4);
        assert((x | y) & m == m) by (bit_vector)
            requires
                x & m == m,
        ;
    }
}

/// No false negative after any series of insertions: each of the keys is
/// reported, and so is whatever was reported before.
pub proof fn law_no_false_negatives(f: Filter, keys: Seq<Seq<u8>>)
    requires
        f.valid(),
    ensures
        f.insert_all(keys).valid(),
        forall|i: int| 0 <= i < keys.len() ==> f.insert_all(keys).may_contain(#[trigger] keys[i]),
        forall|key: Seq<u8>| f.may_contain(key) ==> #[trigger] f.insert_all(keys).may_contain(key),
    decreases keys.len(),
{
    if keys.len() > 0 {
        let front = keys.drop_last();
        let g = f.insert_all(front);
        law_no_false_negatives(f, front);
        law_insert_then_may_contain(g, keys.last());
        assert forall|i: int| 0 <= i < keys.len() implies f.insert_all(keys).may_contain(
            #[trigger] keys[i],
        ) by {
            if i < keys.len() - 1 {
                assert(front[i] == keys[i]);
                law_insert_keeps_members(g, keys[i], keys.last());
            }
        }
        assert forall|key: Seq<u8>| f.may_contain(key) implies #[trigger] f.insert_all(
            keys,
        ).may_contain(key) by {
            assert(g.may_contain(key));
            law_insert_keeps_members(g, key, keys.last());
        }
    }
}

/// Inserting a key twice is the same as inserting it once.
pub proof fn law_insert_idempotent(f: Filter, key: Seq<u8>)
    requires
        f.valid(),
    ensures
        f.insert(key).insert(key) == f.insert(key),
{
    let g = f.insert(key);
    assert forall|i: int| 0 <= i < f.words.len() implies g.insert(key).words[i] == g.words[i] by {
        let x = f.words[i];
        let m = f.mask(key, i % 4);
        assert((x | m) | m == x | m) by (bit_vector);
    }
    assert(g.insert(key).words =~= g.words);
}

/// A filter in which nothing was inserted reports no key.
pub proof fn law_empty_contains_nothing(blocks: nat, k: u8, bits_per_key: u8, key: Seq<u8>)
    requires
        Filter::empty(blocks, k, bits_per_key).valid(),
    ensures
        !Filter::empty(blocks, k, bits_per_key).may_contain(key),
{
    let f = Filter::empty(blocks, k, bits_per_key);
    let (h1, h2) = key_hashes(key);
    lemma_block_range(f, key);
    let w = lemma_mask_nonzero(h1, h2, k as nat);
    let m = f.mask(key, w);
    assert(f.words[4 * f.block_of(key) + w] == 0);
    assert(0u64 & m == 0) by (bit_vector);
}

/// Reading a serialized filter gives the filter back.
pub proof fn law_bytes_roundtrip(f: Filter)
    requires
        f.valid(),
    ensures
        parse_filter(f.to_bytes()) == Ok::<Filter, Error>(f),
        f.to_bytes().len() == HEADER_LEN + 32 * f.blocks(),
{
    let b = f.to_bytes();
    let head = bloom_magic() + seq![f.k, f.bits_per_key, 0u8, 0u8];
    lemma_le_bytes_len(f.blocks(), 4);
    lemma_words_bytes(f.words);
    lemma_pow256_values();
    lemma_le_roundtrip(f.blocks(), 4);
    assert(b.subrange(0, 4) =~= bloom_magic());
    assert(b.subrange(8, 12) =~= le_bytes(f.blocks(), 4));
    let words = Seq::new(4 * f.blocks(), |i: int| u64_at(b, 12 + 8 * i));
    assert forall|i: int| 0 <= i < f.words.len() implies words[i] == f.words[i] by {
        assert(b.subrange(12 + 8 * i, 20 + 8 * i) =~= words_bytes(f.words).subrange(
            8 * i,
            8 * i + 8,
        ));
        lemma_le_roundtrip(f.words[i] as nat, 8);
    }
    assert(words =~= f.words);
}

/// Each word of a bitmap takes its eight bytes.
pub proof fn lemma_words_bytes(words: Seq<u64>)
    ensures
        words_bytes(words).len() == 8 * words.len(),
        forall|i: int|
            0 <= i < words.len() ==> #[trigger] words_bytes(words).subrange(8 * i, 8 * i + 8)
                == le_bytes(words[i] as nat, 8),
    decreases words.len(),
{
    if words.len() > 0 {
        let front = words.drop_last();
        lemma_words_bytes(front);
        lemma_le_bytes_len(words.last() as nat, 8);
        assert forall|i: int| 0 <= i < words.len() implies #[trigger] words_bytes(words).subrange(
            8 * i,
            8 * i + 8,
        ) == le_bytes(words[i] as nat, 8) by {
            if i < words.len() - 1 {
                assert(words_bytes(words).subrange(8 * i, 8 * i + 8) =~= words_bytes(
                    front,
                ).subrange(8 * i, 8 * i + 8));
                assert(front[i] == words[i]);
            } else {
                assert(words_bytes(words).subrange(8 * i, 8 * i + 8) =~= le_bytes(
                    words.last() as nat,
                    8,
                ));
            }
        }
    }
}

/// The block of a key lies within the bitmap.
proof fn lemma_block_range(f: Filter, key: Seq<u8>)
    requires
        f.valid(),
    ensures
        0 <= f.block_of(key) < f.blocks(),
        4 * f.block_of(key) + 3 < f.words.len(),
{
}

// ---------------------------------------------------------------------------
// Executable filter
// ---------------------------------------------------------------------------

/// A blocked Bloom filter.
#[derive(Debug)]
pub struct Bloom {
    words: Vec<u64>,
    num_blocks: usize,
    k: u8,
    bits_per_key: u8,
}

impl View for Bloom {
    type V = Filter;

    closed spec fn view(&self) -> Filter {
        Filter { words: self.words@, k: self.k, bits_per_key: self.bits_per_key }
    }
}

impl Bloom {
    /// Parameters in range, and as many words as the blocks need.
    pub closed spec fn wf(self) -> bool {
        &&& self@.valid()
        &&& self.num_blocks == self@.blocks()
    }

    /// What being well-formed means for the modelled filter.
    pub proof fn lemma_wf(self)
        requires
            self.wf(),
        ensures
            self@.valid(),
    {
    }

    /// An empty filter for `expected_keys` keys at `bits_per_key` bits each.
    pub fn new(expected_keys: usize, bits_per_key: u8) -> (r: Result<Self, Error>)
        ensures
            match r {
                Ok(bloom) => bloom.wf() && new_filter(expected_keys as nat, bits_per_key) == Ok::<
                    Filter,
                    Error,
                >(bloom@),
                Err(e) => new_filter(expected_keys as nat, bits_per_key) == Err::<Filter, Error>(e),
            },
            r is Ok <==> 1 <= bits_per_key <= 16 && expected_keys * bits_per_key <= 64 * 8388608,
    {
        if bits_per_key < 1 || bits_per_key > 16 {
            return Err(Error::BloomInvalid("bits_per_key debe estar en 1..=16"));
        }
        let k: u8 = if bits_per_key <= 8 {
            bits_per_key
        } else {
            8
        };
        let bits: usize = match expected_keys.checked_mul(bits_per_key as usize) {
            Some(bits) => bits,
            None => usize::MAX,
        };
        let num_blocks: usize = if bits <= BLOCK_BITS {
            1
        } else {
            (bits - 1) / BLOCK_BITS + 1
        };
        assert(num_blocks == blocks_needed(expected_keys as nat, bits_per_key as nat) || (
        num_blocks > MAX_WORDS / 4 && blocks_needed(expected_keys as nat, bits_per_key as nat)
            > MAX_WORDS / 4));
        if num_blocks > MAX_WORDS / WORDS_PER_BLOCK {
            return Err(Error::BloomInvalid("filtro demasiado grande"));
        }
        let words: Vec<u64> = vec![0u64; num_blocks * WORDS_PER_BLOCK];
        let bloom = Bloom { words, num_blocks, k, bits_per_key };
        assert(bloom@.words =~= Filter::empty(num_blocks as nat, k, bits_per_key).words);
        Ok(bloom)
    }

    /// Sets the bits of `key`.
    pub fn insert(&mut self, key: &[u8])
        requires
            old(self).wf(),
        ensures
            final(self).wf(),
            final(self)@ == old(self)@.insert(key@),
    {
        let (h1, h2) = hash2(key);
        let blk: usize = block_index(h1, self.num_blocks);
        let mask = probe_mask(h1, h2, self.k);
        let base: usize = blk * WORDS_PER_BLOCK;
        let ghost before = self.words@;
        let mut w: usize = 0;
        while w < WORDS_PER_BLOCK
            invariant
                w <= 4,
                base + 4 <= self.words.len(),
                self.words@.len() == before.len(),
                self.num_blocks == old(self).num_blocks,
                self.k == old(self).k,
                self.bits_per_key == old(self).bits_per_key,
                forall|i: int|
                    0 <= i < before.len() ==> #[trigger] self.words@[i] == if base <= i < base + w {
                        before[i] | mask@[i - base]
                    } else {
                        before[i]
                    },
            decreases 4 - w,
        {
            let i: usize = base + w;
            let word: u64 = self.words[i] | mask[w];
            self.words[i] = word;
            w = w + 1;
        }
        proof {
            let f = old(self)@;
            assert forall|i: int| 0 <= i < before.len() implies self@.words[i] == f.insert(
                key@,
            ).words[i] by {
                if base <= i < base + 4 {
                    assert(i % 4 == i - base);
                    assert(mask@[i - base] == f.mask(key@, i % 4));
                }
            }
        }
        assert(self@.words =~= old(self)@.insert(key@).words);
    }

    /// `false` if `key` was certainly not inserted; `true` if it may have been.
    pub fn may_contain(&self, key: &[u8]) -> (r: bool)
        requires
            self.wf(),
        ensures
            r == self@.may_contain(key@),
    {
        let (h1, h2) = hash2(key);
        let blk: usize = block_index(h1, self.num_blocks);
        let mask = probe_mask(h1, h2, self.k);
        let block = block_ref(&self.words, blk);
        let r = mask_is_subset(&block, &mask);
        proof {
            let f = self@;
            assert forall|w: int| 0 <= w < 4 implies block@[w] == f.words[4 * f.block_of(key@) + w]
                && mask@[w] == #[trigger] f.mask(key@, w) by {}
            if r {
                assert(f.may_contain(key@));
            } else {
                let w = choose|w: int| 0 <= w < 4 && block@[w] & mask@[w] != #[trigger] mask@[w];
                assert(f.mask(key@, w) == mask@[w]);
            }
        }
        r
    }

    /// The number of bits that a key sets, 1 to 8.
    pub fn k(&self) -> (r: u8)
        requires
            self.wf(),
        ensures
            r == self@.k,
            1 <= r <= 8,
    {
        self.k
    }

    /// The number of blocks, at least 1.
    pub fn num_blocks(&self) -> (r: usize)
        requires
            self.wf(),
        ensures
            r == self@.blocks(),
            r >= 1,
    {
        self.num_blocks
    }

    /// The serialized filter.
    pub fn to_bytes(&self) -> (r: Result<Vec<u8>, Error>)
        requires
            self.wf(),
        ensures
            r matches Ok(bytes) && bytes@ == self@.to_bytes(),
    {
        let mut out: Vec<u8> = Vec::new();
        out.push(66);
        out.push(76);
        out.push(77);
        out.push(49);
        out.push(self.k);
        out.push(self.bits_per_key);
        out.push(0);
        out.push(0);
        assert(out@ =~= bloom_magic() + seq![self.k, self.bits_per_key, 0u8, 0u8]);
        push_le(&mut out, self.num_blocks as u64, 4);
        let ghost head = out@;
        let mut i: usize = 0;
        assert(head + words_bytes(self.words@.take(0)) =~= head);
        while i < self.words.len()
            invariant
                i <= self.words@.len(),
                out@ == head + words_bytes(self.words@.take(i as int)),
            decreases self.words@.len() - i,
        {
            proof {
                let longer = self.words@.take(i + 1);
                assert(longer.drop_last() =~= self.words@.take(i as int));
                assert(longer.last() == self.words@[i as int]);
            }
            let ghost before = out@;
            push_le(&mut out, self.words[i], 8);
            assert(out@ =~= head + words_bytes(self.words@.take(i + 1)));
            i = i + 1;
        }
        assert(self.words@.take(self.words@.len() as int) =~= self.words@);
        Ok(out)
    }

    /// The filter that `bytes` serialize.
    pub fn from_bytes(bytes: &[u8]) -> (r: Result<Self, Error>)
        ensures
            match r {
                Ok(bloom) => bloom.wf() && parse_filter(bytes@) == Ok::<Filter, Error>(bloom@),
                Err(e) => parse_filter(bytes@) == Err::<Filter, Error>(e),
            },
    {
        if bytes.len() < HEADER_LEN {
            return Err(Error::BloomCorrupt("cabecera truncada"));
        }
        if !has_magic(bytes) {
            return Err(Error::BloomCorrupt("magic inválida"));
        }
        let k: u8 = bytes[4];
        let bits_per_key: u8 = bytes[5];
        if k < 1 || k > 8 {
            return Err(Error::BloomCorrupt("k fuera de rango"));
        }
        if bits_per_key < 1 || bits_per_key > 16 {
            return Err(Error::BloomCorrupt("bits_per_key fuera de rango"));
        }
        let num_blocks: usize = read_u32(bytes, 8) as usize;
        if num_blocks == 0 || num_blocks > MAX_WORDS / WORDS_PER_BLOCK {
            return Err(Error::BloomCorrupt("num_blocks inválido"));
        }
        let num_words: usize = num_blocks * WORDS_PER_BLOCK;
        if bytes.len() != HEADER_LEN + num_words * 8 {
            return Err(Error::BloomCorrupt("tamaño de bitmap"));
        }
        let words = read_words(bytes, num_words);
        Ok(Bloom { words, num_blocks, k, bits_per_key })
    }
}

/// `bytes` begin with the magic of a filter.
fn has_magic(bytes: &[u8]) -> (r: bool)
    requires
        bytes@.len() >= 4,
    ensures
        r == (bytes@.subrange(0, 4) == bloom_magic()),
{
    let r = bytes[0] == 66 && bytes[1] == 76 && bytes[2] == 77 && bytes[3] == 49;
    proof {
        let head = bytes@.subrange(0, 4);
        let magic = bloom_magic();
        assert(head[0] == bytes@[0] && head[1] == bytes@[1] && head[2] == bytes@[2] && head[3]
            == bytes@[3]);
        assert(magic[0] == 66 && magic[1] == 76 && magic[2] == 77 && magic[3] == 49);
        if r {
            assert(head =~= magic);
        }
    }
    r
}

/// The words of a serialized filter.
fn read_words(bytes: &[u8], num_words: usize) -> (words: Vec<u64>)
    requires
        bytes@.len() == HEADER_LEN + num_words * 8,
    ensures
        words@ == Seq::new(num_words as nat, |i: int| u64_at(bytes@, 12 + 8 * i)),
{
    let mut words: Vec<u64> = Vec::new();
    let mut i: usize = 0;
    while i < num_words
        invariant
            i <= num_words,
            bytes.len() == HEADER_LEN + num_words * 8,
            words@.len() == i,
            forall|j: int| 0 <= j < i ==> words@[j] == u64_at(bytes@, 12 + 8 * j),
        decreases num_words - i,
    {
        words.push(read_u64(bytes, HEADER_LEN + i * 8));
        i = i + 1;
    }
    assert(words@ =~= Seq::new(num_words as nat, |i: int| u64_at(bytes@, 12 + 8 * i)));
    words
}

/// The block, of `num_blocks`, in which a key with first hash `h1` lies; no blocks
/// count as one.
pub fn block_index(h1: u64, num_blocks: usize) -> (r: usize)
    ensures
        r == h1 as int % if num_blocks == 0 {
            1
        } else {
            num_blocks as int
        },
        num_blocks > 0 ==> r < num_blocks,
{
    let n: u64 = if num_blocks == 0 {
        1
    } else {
        num_blocks as u64
    };
    (h1 % n) as usize
}

/// The mask of the first `k` probes, at most eight, as four words.
pub fn probe_mask(h1: u64, h2: u64, k: u8) -> (mask: [u64; 4])
    ensures
        forall|w: int|
            0 <= w < 4 ==> #[trigger] mask@[w] == mask_word(
                h1,
                h2,
                if k <= 8 {
                    k as nat
                } else {
                    8
                },
                w,
            ),
{
    let mut mask: [u64; 4] = [0; 4];
    let probes: u64 = if k <= 8 {
        k as u64
    } else {
        8
    };
    let mut i: u64 = 0;
    while i < probes
        invariant
            i <= probes,
            forall|w: int| 0 <= w < 4 ==> #[trigger] mask@[w] == mask_word(h1, h2, i as nat, w),
        decreases probes - i,
    {
        let h: u64 = h1.wrapping_add(i.wrapping_mul(h2));
        let bit: u64 = h % 256;
        let word: usize = (bit / 64) as usize;
        let offset: u64 = bit % 64;
        assert(bit == probe_bit(h1, h2, i as int));
        let updated: u64 = mask[word] | (1u64 << offset);
        mask[word] = updated;
        i = i + 1;
    }
    mask
}

/// All bits of `mask` are set in `block`.
pub open spec fn is_subset(block: Seq<u64>, mask: Seq<u64>) -> bool {
    forall|w: int| 0 <= w < 4 ==> block[w] & mask[w] == #[trigger] mask[w]
}

/// `true` iff all bits of `mask` are set in `block`, word by word.
pub fn mask_is_subset_scalar(block: &[u64; 4], mask: &[u64; 4]) -> (r: bool)
    ensures
        r == is_subset(block@, mask@),
{
    let mut w: usize = 0;
    while w < 4
        invariant
            w <= 4,
            forall|j: int| 0 <= j < w ==> block@[j] & mask@[j] == #[trigger] mask@[j],
        decreases 4 - w,
    {
        if block[w] & mask[w] != mask[w] {
            assert(block@[w as int] & mask@[w as int] != mask@[w as int]);
            return false;
        }
        w = w + 1;
    }
    true
}

/// `true` iff all bits of `mask` are set in `block`.
pub fn mask_is_subset(block: &[u64; 4], mask: &[u64; 4]) -> (r: bool)
    ensures
        r == is_subset(block@, mask@),
{
    mask_is_subset_scalar(block, mask)
}

/// The four words of block `block_idx`.
fn block_ref(words: &Vec<u64>, block_idx: usize) -> (block: [u64; 4])
    requires
        4 * block_idx + 3 < words.len(),
    ensures
        forall|w: int| 0 <= w < 4 ==> #[trigger] block@[w] == words@[4 * block_idx + w],
{
    let start: usize = block_idx * WORDS_PER_BLOCK;
    [words[start], words[start + 1], words[start + 2], words[start + 3]]
}

} // verus!
