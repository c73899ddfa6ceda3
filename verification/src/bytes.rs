//! Byte-level vocabulary: little-endian integers and the lexicographic order
//! of byte strings.

use vstd::prelude::*;

verus! {

/// The number that `s` writes in little-endian base 256.
pub open spec fn le_nat(s: Seq<u8>) -> nat
    decreases s.len(),
{
    if s.len() == 0 {
        0
    } else {
        s[0] as nat + 256 * le_nat(s.drop_first())
    }
}

/// The `width` low-order base-256 digits of `n`, least significant first.
pub open spec fn le_bytes(n: nat, width: nat) -> Seq<u8>
    decreases width,
{
    if width == 0 {
        seq![]
    } else {
        seq![(n % 256) as u8] + le_bytes(n / 256, (width - 1) as nat)
    }
}

/// `256` to the power `width`.
pub open spec fn pow256(width: nat) -> nat
    decreases width,
{
    if width == 0 {
        1
    } else {
        256 * pow256((width - 1) as nat)
    }
}

/// The little-endian `u16` at offset `off` of `s`.
pub open spec fn u16_at(s: Seq<u8>, off: int) -> u16 {
    le_nat(s.subrange(off, off + 2)) as u16
}

/// The little-endian `u32` at offset `off` of `s`.
pub open spec fn u32_at(s: Seq<u8>, off: int) -> u32 {
    le_nat(s.subrange(off, off + 4)) as u32
}

/// The little-endian `u64` at offset `off` of `s`.
pub open spec fn u64_at(s: Seq<u8>, off: int) -> u64 {
    le_nat(s.subrange(off, off + 8)) as u64
}

/// `n` zero bytes.
pub open spec fn zeros(n: nat) -> Seq<u8> {
    Seq::new(n, |i: int| 0u8)
}

/// `n`, or the largest machine word if `n` is larger.
pub open spec fn capped(n: int) -> int {
    if n > usize::MAX {
        usize::MAX as int
    } else {
        n
    }
}

/// The widths in use: two, four and eight bytes.
pub proof fn lemma_pow256_values()
    ensures
        pow256(0) == 1,
        pow256(1) == 0x100,
        pow256(2) == 0x1_0000,
        pow256(4) == 0x1_0000_0000,
        pow256(8) == 0x1_0000_0000_0000_0000,
{
    reveal_with_fuel(pow256, 9);
}

/// A string of `width` digits is `width` bytes long.
pub proof fn lemma_le_bytes_len(n: nat, width: nat)
    ensures
        le_bytes(n, width).len() == width,
    decreases width,
{
    if width > 0 {
        lemma_le_bytes_len(n / 256, (width - 1) as nat);
    }
}

/// A string of `k` digits stands for a number below `256^k`.
pub proof fn lemma_le_nat_bound(s: Seq<u8>)
    ensures
        le_nat(s) < pow256(s.len()),
    decreases s.len(),
{
    if s.len() > 0 {
        lemma_le_nat_bound(s.drop_first());
    }
}

/// Reading back what was written gives the number.
pub proof fn lemma_le_roundtrip(n: nat, width: nat)
    requires
        n < pow256(width),
    ensures
        le_nat(le_bytes(n, width)) == n,
    decreases width,
{
    if width > 0 {
        let rest = le_bytes(n / 256, (width - 1) as nat);
        assert(n / 256 < pow256((width - 1) as nat));
        lemma_le_roundtrip(n / 256, (width - 1) as nat);
        assert(le_bytes(n, width).drop_first() =~= rest);
    }
}

/// Writing what was read gives the bytes.
pub proof fn lemma_le_bytes_of_nat(s: Seq<u8>)
    ensures
        le_bytes(le_nat(s), s.len()) == s,
    decreases s.len(),
{
    if s.len() > 0 {
        let rest = s.drop_first();
        lemma_le_bytes_of_nat(rest);
        let n = le_nat(s);
        assert(n % 256 == s[0] as nat);
        assert(n / 256 == le_nat(rest));
        assert(le_bytes(n, s.len()) =~= s);
    } else {
        assert(s =~= seq![]);
    }
}

/// The integers of the on-disk formats survive being written and read back.
pub proof fn lemma_fixed_width(s: Seq<u8>, off: int)
    requires
        0 <= off,
    ensures
        off + 2 <= s.len() ==> u16_at(s, off) as nat == le_nat(s.subrange(off, off + 2)),
        off + 4 <= s.len() ==> u32_at(s, off) as nat == le_nat(s.subrange(off, off + 4)),
        off + 8 <= s.len() ==> u64_at(s, off) as nat == le_nat(s.subrange(off, off + 8)),
{
    lemma_pow256_values();
    if off + 2 <= s.len() {
        lemma_le_nat_bound(s.subrange(off, off + 2));
    }
    if off + 4 <= s.len() {
        lemma_le_nat_bound(s.subrange(off, off + 4));
    }
    if off + 8 <= s.len() {
        lemma_le_nat_bound(s.subrange(off, off + 8));
    }
}

/// The pieces one after the other.
pub open spec fn joined(pieces: Seq<Seq<u8>>) -> Seq<u8>
    decreases pieces.len(),
{
    if pieces.len() == 0 {
        seq![]
    } else {
        joined(pieces.drop_last()) + pieces.last()
    }
}

/// A piece more at the end is that many bytes more at the end.
pub proof fn lemma_joined_push(pieces: Seq<Seq<u8>>, piece: Seq<u8>)
    ensures
        joined(pieces.push(piece)) == joined(pieces) + piece,
{
    assert(pieces.push(piece).drop_last() =~= pieces);
}

/// The pieces before `i`, then the rest.
pub proof fn lemma_joined_split(pieces: Seq<Seq<u8>>, i: int)
    requires
        0 <= i <= pieces.len(),
    ensures
        joined(pieces) == joined(pieces.take(i)) + joined(pieces.skip(i)),
    decreases pieces.len(),
{
    if i == pieces.len() {
        assert(pieces.take(i) =~= pieces);
        assert(joined(pieces.skip(i)) =~= seq![]);
        assert(joined(pieces) =~= joined(pieces) + seq![]);
    } else {
        let before = pieces.drop_last();
        lemma_joined_split(before, i);
        assert(before.take(i) =~= pieces.take(i));
        assert(pieces.skip(i).drop_last() =~= before.skip(i));
        assert(joined(pieces) =~= joined(pieces.take(i)) + joined(pieces.skip(i)));
    }
}

/// Where piece `i` lies.
pub proof fn lemma_joined_piece(pieces: Seq<Seq<u8>>, i: int)
    requires
        0 <= i < pieces.len(),
    ensures
        joined(pieces.take(i)).len() + pieces[i].len() == joined(pieces.take(i + 1)).len(),
        joined(pieces.take(i + 1)).len() <= joined(pieces).len(),
        joined(pieces).subrange(
            joined(pieces.take(i)).len() as int,
            joined(pieces.take(i + 1)).len() as int,
        ) == pieces[i],
{
    lemma_joined_split(pieces, i + 1);
    assert(pieces.take(i + 1).drop_last() =~= pieces.take(i));
    assert(joined(pieces).subrange(
        joined(pieces.take(i)).len() as int,
        joined(pieces.take(i + 1)).len() as int,
    ) =~= pieces[i]);
}

/// What lies at `off` of a part of `s` that begins at `base` lies at `base + off`
/// of `s`.
pub proof fn lemma_part_of_part(s: Seq<u8>, base: int, part: Seq<u8>, off: int, len: int)
    requires
        0 <= base,
        base + part.len() <= s.len(),
        s.subrange(base, base + part.len()) == part,
        0 <= off,
        0 <= len,
        off + len <= part.len(),
    ensures
        s.subrange(base + off, base + off + len) == part.subrange(off, off + len),
{
    assert(s.subrange(base + off, base + off + len) =~= s.subrange(
        base,
        base + part.len(),
    ).subrange(off, off + len));
}

/// A number that was written at `off` is read there.
pub proof fn lemma_number_at(s: Seq<u8>, off: int, n: nat, width: nat)
    requires
        0 <= off,
        off + width <= s.len(),
        s.subrange(off, off + width) == le_bytes(n, width),
    ensures
        width == 2 && n <= u16::MAX ==> u16_at(s, off) == n,
        width == 4 && n <= u32::MAX ==> u32_at(s, off) == n,
        width == 8 && n <= u64::MAX ==> u64_at(s, off) == n,
{
    lemma_pow256_values();
    if n < pow256(width) {
        lemma_le_roundtrip(n, width);
    }
}

/// Lexicographic order of byte strings: a proper prefix comes first, otherwise
/// the first byte in which they differ decides.
pub open spec fn lex_lt(a: Seq<u8>, b: Seq<u8>) -> bool
    decreases a.len(),
{
    if b.len() == 0 {
        false
    } else if a.len() == 0 {
        true
    } else {
        a[0] < b[0] || (a[0] == b[0] && lex_lt(a.drop_first(), b.drop_first()))
    }
}

/// `a` is smaller than or equal to `b`.
pub open spec fn lex_le(a: Seq<u8>, b: Seq<u8>) -> bool {
    a == b || lex_lt(a, b)
}

/// No string is smaller than itself.
pub proof fn lemma_lex_irreflexive(a: Seq<u8>)
    ensures
        !lex_lt(a, a),
    decreases a.len(),
{
    if a.len() > 0 {
        lemma_lex_irreflexive(a.drop_first());
    }
}

/// The order is transitive.
pub proof fn lemma_lex_transitive(a: Seq<u8>, b: Seq<u8>, c: Seq<u8>)
    requires
        lex_lt(a, b),
        lex_lt(b, c),
    ensures
        lex_lt(a, c),
    decreases a.len(),
{
    if a.len() > 0 && a[0] == b[0] && b[0] == c[0] {
        lemma_lex_transitive(a.drop_first(), b.drop_first(), c.drop_first());
    }
}

/// Two strings are equal or one of them is smaller.
pub proof fn lemma_lex_total(a: Seq<u8>, b: Seq<u8>)
    ensures
        a == b || lex_lt(a, b) || lex_lt(b, a),
    decreases a.len(),
{
    if a.len() == 0 && b.len() == 0 {
        assert(a =~= b);
    } else if a.len() > 0 && b.len() > 0 && a[0] == b[0] {
        lemma_lex_total(a.drop_first(), b.drop_first());
        if a.drop_first() == b.drop_first() {
            assert(a =~= seq![a[0]] + a.drop_first());
            assert(b =~= seq![b[0]] + b.drop_first());
        }
    }
}

/// At most one of `a < b`, `a == b` and `b < a` holds.
pub proof fn lemma_lex_asymmetric(a: Seq<u8>, b: Seq<u8>)
    requires
        lex_lt(a, b),
    ensures
        a != b,
        !lex_lt(b, a),
{
    lemma_lex_irreflexive(a);
    if lex_lt(b, a) {
        lemma_lex_transitive(a, b, a);
    }
}

/// Appends the `width` little-endian bytes of `x`.
pub fn push_le(dst: &mut Vec<u8>, x: u64, width: usize)
    requires
        width <= 8,
    ensures
        final(dst)@ == old(dst)@ + le_bytes(x as nat, width as nat),
{
    let mut rest: u64 = x;
    let mut left: usize = width;
    while left > 0
        invariant
            dst@ + le_bytes(rest as nat, left as nat) == old(dst)@ + le_bytes(x as nat, width as nat),
        decreases left,
    {
        let ghost before = dst@;
        let digit: u8 = (rest % 256) as u8;
        dst.push(digit);
        proof {
            let tail = le_bytes((rest / 256) as nat, (left - 1) as nat);
            assert(le_bytes(rest as nat, left as nat) == seq![digit] + tail);
            assert(before.push(digit) + tail =~= before + (seq![digit] + tail));
        }
        rest = rest / 256;
        left = left - 1;
    }
    assert(dst@ + le_bytes(rest as nat, 0) =~= dst@);
}

/// Reads the `width` bytes at `off` as a little-endian number.
pub fn read_le(src: &[u8], off: usize, width: usize) -> (n: u64)
    requires
        width <= 8,
        off + width <= src@.len(),
    ensures
        n as nat == le_nat(src@.subrange(off as int, off + width)),
{
    let mut acc: u64 = 0;
    let mut i: usize = width;
    proof {
        lemma_pow256_values();
        assert(src@.subrange(off + width, off + width).len() == 0);
    }
    while i > 0
        invariant
            i <= width <= 8,
            off + width <= src.len(),
            acc as nat == le_nat(src@.subrange(off + i, off + width)),
        decreases i,
    {
        let ghost tail = src@.subrange(off + i, off + width);
        let ghost longer = src@.subrange(off + i - 1, off + width);
        proof {
            assert(longer.drop_first() =~= tail);
            assert(longer[0] == src@[off + i - 1]);
            lemma_le_nat_bound(longer);
            lemma_pow256_monotonic(longer.len(), 8);
            lemma_pow256_values();
        }
        i = i - 1;
        acc = acc * 256 + src[off + i] as u64;
    }
    acc
}

/// Reads the `u16` at `off`.
pub fn read_u16(src: &[u8], off: usize) -> (r: u16)
    requires
        off + 2 <= src@.len(),
    ensures
        r == u16_at(src@, off as int),
{
    proof {
        lemma_fixed_width(src@, off as int);
    }
    read_le(src, off, 2) as u16
}

/// Reads the `u32` at `off`.
pub fn read_u32(src: &[u8], off: usize) -> (r: u32)
    requires
        off + 4 <= src@.len(),
    ensures
        r == u32_at(src@, off as int),
{
    proof {
        lemma_fixed_width(src@, off as int);
    }
    read_le(src, off, 4) as u32
}

/// Reads the `u64` at `off`.
pub fn read_u64(src: &[u8], off: usize) -> (r: u64)
    requires
        off + 8 <= src@.len(),
    ensures
        r == u64_at(src@, off as int),
{
    proof {
        lemma_fixed_width(src@, off as int);
    }
    read_le(src, off, 8)
}

proof fn lemma_pow256_monotonic(a: nat, b: nat)
    requires
        a <= b,
    ensures
        0 < pow256(a) <= pow256(b),
    decreases b,
{
    if a < b {
        lemma_pow256_monotonic(a, (b - 1) as nat);
    } else if a > 0 {
        lemma_pow256_monotonic((a - 1) as nat, (b - 1) as nat);
    }
}

/// `true` iff the two strings hold the same bytes.
pub fn bytes_equal(a: &[u8], b: &[u8]) -> (r: bool)
    ensures
        r == (a@ == b@),
{
    if a.len() != b.len() {
        return false;
    }
    let mut i: usize = 0;
    while i < a.len()
        invariant
            a@.len() == b@.len(),
            i <= a@.len(),
            forall|j: int| 0 <= j < i ==> a@[j] == b@[j],
        decreases a@.len() - i,
    {
        if a[i] != b[i] {
            return false;
        }
        i = i + 1;
    }
    assert(a@ =~= b@);
    true
}

/// `true` iff `a` comes strictly before `b` in lexicographic order.
pub fn bytes_less(a: &[u8], b: &[u8]) -> (r: bool)
    ensures
        r == lex_lt(a@, b@),
{
    let mut i: usize = 0;
    assert(a@.skip(0) =~= a@);
    assert(b@.skip(0) =~= b@);
    while i < a.len() && i < b.len()
        invariant
            i <= a@.len(),
            i <= b@.len(),
            lex_lt(a@, b@) == lex_lt(a@.skip(i as int), b@.skip(i as int)),
        decreases a@.len() - i,
    {
        let ghost sa = a@.skip(i as int);
        let ghost sb = b@.skip(i as int);
        assert(sa[0] == a@[i as int] && sb[0] == b@[i as int]);
        if a[i] != b[i] {
            return a[i] < b[i];
        }
        assert(sa.drop_first() =~= a@.skip(i + 1));
        assert(sb.drop_first() =~= b@.skip(i + 1));
        i = i + 1;
    }
    i < b.len()
}

/// Appends a copy of `src`.
pub fn push_all(dst: &mut Vec<u8>, src: &[u8])
    ensures
        final(dst)@ == old(dst)@ + src@,
{
    dst.extend_from_slice(src);
    assert(dst@ =~= old(dst)@ + src@);
}

} // verus!
