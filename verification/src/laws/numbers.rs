//! Numbers as bytes and as text, the order of byte strings, and file names.

use crate::bytes::{
    capped, joined, le_bytes, le_nat, lemma_le_bytes_len, lex_le, lex_lt, u16_at, u32_at, u64_at,
    zeros,
};
use crate::files::{table_id, table_name, tables_among, with_id};
use crate::text::{
    decimal, digit_char, is_digit, is_number, lemma_decimal_value, lemma_padded_value, number_value,
    padded,
};
use vstd::prelude::*;

verus! {

// ---------------------------------------------------------------------------
// Bytes
// ---------------------------------------------------------------------------

/// A two-byte number is its first byte and 256 times its second.
pub proof fn law_u16_is_its_bytes(s: Seq<u8>, off: int)
    requires
        0 <= off,
        off + 2 <= s.len(),
    ensures
        u16_at(s, off) == s[off] + 0x100 * s[off + 1],
{
    reveal_with_fuel(le_nat, 3);
    let t = s.subrange(off, off + 2);
    assert(t.drop_first().drop_first() =~= seq![]);
}

/// A four-byte number is the sum of its bytes, each 256 times the one before.
pub proof fn law_u32_is_its_bytes(s: Seq<u8>, off: int)
    requires
        0 <= off,
        off + 4 <= s.len(),
    ensures
        u32_at(s, off) == s[off] + 0x100 * s[off + 1] + 0x1_0000 * s[off + 2] + 0x100_0000 * s[off
            + 3],
{
    reveal_with_fuel(le_nat, 5);
    let t = s.subrange(off, off + 4);
    assert(t.drop_first().drop_first().drop_first().drop_first() =~= seq![]);
}

/// An eight-byte number is the sum of its bytes, each 256 times the one before.
pub proof fn law_u64_is_its_bytes(s: Seq<u8>, off: int)
    requires
        0 <= off,
        off + 8 <= s.len(),
    ensures
        u64_at(s, off) == s[off] + 0x100 * s[off + 1] + 0x1_0000 * s[off + 2] + 0x100_0000 * s[off
            + 3] + 0x1_0000_0000 * s[off + 4] + 0x100_0000_0000 * s[off + 5] + 0x1_0000_0000_0000
            * s[off + 6] + 0x100_0000_0000_0000 * s[off + 7],
{
    reveal_with_fuel(le_nat, 9);
    let t = s.subrange(off, off + 8);
    assert(
        t.drop_first().drop_first().drop_first().drop_first().drop_first().drop_first().drop_first().drop_first()
            =~= seq![]);
}

/// A string of bytes writes the number whose digits it holds, lowest first: the
/// first byte counts as it is, the rest 256 times.
pub proof fn law_number_of_bytes(first: u8, rest: Seq<u8>)
    ensures
        le_nat(seq![]) == 0,
        le_nat(seq![first] + rest) == first + 256 * le_nat(rest),
{
    assert((seq![first] + rest).drop_first() =~= rest);
}

/// The bytes of a number: as many as the width, the first is the remainder by 256,
/// the others are the bytes of the quotient.
pub proof fn law_bytes_of_number(n: nat, width: nat)
    ensures
        le_bytes(n, width).len() == width,
        width > 0 ==> le_bytes(n, width)[0] == n % 256,
        width > 0 ==> le_bytes(n, width).skip(1) == le_bytes(n / 256, (width - 1) as nat),
{
    lemma_le_bytes_len(n, width);
    if width > 0 {
        lemma_le_bytes_len(n / 256, (width - 1) as nat);
        assert(le_bytes(n, width).skip(1) =~= le_bytes(n / 256, (width - 1) as nat));
    }
}

/// Padding is zeros, as many as asked for.
pub proof fn law_zeros(n: nat, i: int)
    requires
        0 <= i < n,
    ensures
        zeros(n).len() == n,
        zeros(n)[i] == 0,
{
}

/// A saturated number is the number if it fits a machine word, else the largest.
pub proof fn law_capped(n: int)
    ensures
        n <= usize::MAX ==> capped(n) == n,
        n > usize::MAX ==> capped(n) == usize::MAX,
{
}

/// Pieces one after the other: nothing of none, the one of one, and joining two
/// rows of pieces is joining each and then the results.
pub proof fn law_joined(a: Seq<Seq<u8>>, b: Seq<Seq<u8>>, piece: Seq<u8>)
    ensures
        joined(seq![]) == Seq::<u8>::empty(),
        joined(seq![piece]) == piece,
        joined(a + b) == joined(a) + joined(b),
    decreases b.len(),
{
    reveal_with_fuel(joined, 2);
    assert(seq![piece].drop_last() =~= seq![]);
    assert(joined(seq![piece]) =~= piece);
    if b.len() == 0 {
        assert(a + b =~= a);
        assert(joined(a) + joined(b) =~= joined(a));
    } else {
        law_joined(a, b.drop_last(), piece);
        assert((a + b).drop_last() =~= a + b.drop_last());
        assert(joined(a + b) =~= joined(a) + joined(b));
    }
}

/// One byte string is smaller than another iff up to some place they are the same,
/// and there the first ends or has the smaller byte.
pub proof fn law_order_is_lexicographic(a: Seq<u8>, b: Seq<u8>)
    ensures
        lex_lt(a, b) <==> exists|p: int| #[trigger] first_difference(a, b, p),
    decreases a.len(),
{
    if b.len() > 0 && a.len() > 0 && a[0] == b[0] {
        let ra = a.drop_first();
        let rb = b.drop_first();
        law_order_is_lexicographic(ra, rb);
        if lex_lt(a, b) {
            let p = choose|p: int| #[trigger] first_difference(ra, rb, p);
            assert forall|i: int| 0 <= i < p + 1 implies a[i] == b[i] by {
                if i > 0 {
                    assert(ra[i - 1] == rb[i - 1]);
                }
            }
            assert(first_difference(a, b, p + 1));
        }
        if exists|p: int| #[trigger] first_difference(a, b, p) {
            let p = choose|p: int| #[trigger] first_difference(a, b, p);
            assert(first_difference(ra, rb, p - 1));
        }
    } else if b.len() > 0 {
        if lex_lt(a, b) {
            assert(first_difference(a, b, 0));
        }
        if exists|p: int| #[trigger] first_difference(a, b, p) {
            let p = choose|p: int| #[trigger] first_difference(a, b, p);
            if p > 0 {
                assert(a[0] == b[0]);
            }
        }
    }
}

/// `a` and `b` agree before place `p`; there `a` ends and `b` does not, or `a` has
/// the smaller byte.
pub open spec fn first_difference(a: Seq<u8>, b: Seq<u8>, p: int) -> bool {
    &&& 0 <= p <= a.len()
    &&& p < b.len()
    &&& forall|i: int| 0 <= i < p ==> a[i] == b[i]
    &&& p < a.len() ==> a[p] < b[p]
}

/// Not larger means smaller or the same.
pub proof fn law_not_larger(a: Seq<u8>, b: Seq<u8>)
    ensures
        lex_le(a, b) <==> a == b || lex_lt(a, b),
{
}

// ---------------------------------------------------------------------------
// Text
// ---------------------------------------------------------------------------

/// The ten digits are the characters from `0` to `9`.
pub proof fn law_digits(d: nat, c: char)
    ensures
        d < 10 ==> digit_char(d) as u32 == '0' as u32 + d,
        is_digit(c) <==> '0' as u32 <= c as u32 <= '9' as u32,
{
}

/// A row of digits writes ten times what the digits before the last write, plus
/// the last.
pub proof fn law_number_of_digits(s: Seq<char>, d: nat)
    requires
        d < 10,
    ensures
        number_value(seq![]) == 0,
        number_value(s.push(digit_char(d))) == 10 * number_value(s) + d,
        is_number(s.push(digit_char(d))) <==> (s.len() == 0 || is_number(s)),
{
    let t = s.push(digit_char(d));
    assert(t.drop_last() =~= s);
    if is_number(t) && s.len() > 0 {
        assert forall|i: int| 0 <= i < s.len() implies is_digit(#[trigger] s[i]) by {
            assert(t[i] == s[i]);
        }
    }
    if s.len() == 0 || is_number(s) {
        assert forall|i: int| 0 <= i < t.len() implies is_digit(#[trigger] t[i]) by {
            if i < s.len() {
                assert(t[i] == s[i]);
            }
        }
    }
}

/// The decimal text of a number is digits that write the number, without a leading
/// zero.
pub proof fn law_decimal(n: nat)
    ensures
        is_number(decimal(n)),
        number_value(decimal(n)) == n,
        n > 0 ==> decimal(n)[0] != '0',
        n == 0 ==> decimal(n) == seq!['0'],
    decreases n,
{
    lemma_decimal_value(n);
    if n >= 10 {
        law_decimal(n / 10);
        lemma_decimal_value(n / 10);
        assert(decimal(n)[0] == decimal(n / 10)[0]);
    } else if n == 0 {
        assert(decimal(0) =~= seq!['0']);
    }
}

/// Padded text is the decimal text behind zeros up to the width; text that is wide
/// enough is not changed.
pub proof fn law_padded(n: nat, width: nat)
    ensures
        padded(n, width).len() == if decimal(n).len() > width {
            decimal(n).len()
        } else {
            width
        },
        padded(n, width).skip(padded(n, width).len() - decimal(n).len()) == decimal(n),
        forall|i: int|
            0 <= i < padded(n, width).len() - decimal(n).len() ==> #[trigger] padded(n, width)[i]
                == '0',
        number_value(padded(n, width)) == n,
{
    lemma_padded_value(n, width);
    assert(padded(n, width).skip(padded(n, width).len() - decimal(n).len()) =~= decimal(n));
}

// ---------------------------------------------------------------------------
// File names
// ---------------------------------------------------------------------------

/// The name of a table file is the digits of its number, at least six of them, and
/// `.sst`.
pub proof fn law_table_name(id: u64)
    ensures
        table_name(id) == padded(id as nat, 6) + seq!['.', 's', 's', 't'],
        number_value(table_name(id).take(table_name(id).len() - 4)) == id,
        table_name(id).len() >= 10,
        table_id(table_name(id)) == Some(id),
{
    reveal_strlit(".sst");
    assert(".sst"@ =~= seq!['.', 's', 's', 't']);
    law_padded(id as nat, 6);
    assert(table_name(id).take(table_name(id).len() - 4) =~= padded(id as nat, 6));
    crate::files::law_table_name_roundtrip(id);
}

/// A name is that of a table file iff it is digits and `.sst` and the number fits
/// 64 bits; then its number is what the digits write.
pub proof fn law_table_id(stem: Seq<char>, name: Seq<char>)
    ensures
        is_number(stem) && number_value(stem) <= u64::MAX ==> table_id(
            stem + seq!['.', 's', 's', 't'],
        ) == Some(number_value(stem) as u64),
        !is_number(stem) || number_value(stem) > u64::MAX ==> table_id(
            stem + seq!['.', 's', 's', 't'],
        ) is None,
        table_id(name) is Some ==> name.len() > 4 && is_number(name.take(name.len() - 4))
            && name.skip(name.len() - 4) == seq!['.', 's', 's', 't'],
{
    reveal_strlit(".sst");
    let suffix = seq!['.', 's', 's', 't'];
    assert(".sst"@ =~= suffix);
    let full = stem + suffix;
    assert(full.take(full.len() - 4) =~= stem);
    assert(full.skip(full.len() - 4) =~= suffix);
}

/// How many of the names are those of table files.
pub open spec fn table_names(names: Seq<Seq<char>>) -> nat {
    names.filter(|name: Seq<char>| table_id(name) is Some).len()
}

/// The table files among names: each name that is one is there with its number,
/// nothing else is there, and there are as many as names of table files.
pub proof fn law_tables_among(names: Seq<Seq<char>>)
    ensures
        forall|i: int|
            0 <= i < names.len() && table_id(#[trigger] names[i]) is Some ==> tables_among(
                names,
            ).contains((table_id(names[i])->Some_0, names[i])),
        forall|file: (u64, Seq<char>)| #[trigger]
            tables_among(names).contains(file) ==> names.contains(file.1) && table_id(file.1)
                == Some(file.0),
        tables_among(names).len() == table_names(names),
    decreases names.len(),
{
    let wanted = |name: Seq<char>| table_id(name) is Some;
    reveal(Seq::filter);
    if names.len() > 0 {
        let front = names.drop_last();
        let last = names.last();
        law_tables_among(front);
        let before = tables_among(front);
        let after = tables_among(names);
        assert forall|i: int| 0 <= i < names.len() && table_id(#[trigger] names[i]) is Some implies
            after.contains((table_id(names[i])->Some_0, names[i])) by {
            let file = (table_id(names[i])->Some_0, names[i]);
            if i < front.len() {
                assert(front[i] == names[i]);
                assert(before.contains(file));
                let j = choose|j: int| 0 <= j < before.len() && before[j] == file;
                assert(after[j] == file);
            } else {
                assert(after[after.len() - 1] == file);
            }
        }
        assert forall|file: (u64, Seq<char>)| #[trigger] after.contains(file) implies
            names.contains(file.1) && table_id(file.1) == Some(file.0) by {
            let j = choose|j: int| 0 <= j < after.len() && after[j] == file;
            if j < before.len() {
                assert(before[j] == file);
                assert(before.contains(file));
                let i = choose|i: int| 0 <= i < front.len() && front[i] == file.1;
                assert(names[i] == file.1);
            } else {
                assert(names[names.len() - 1] == file.1);
            }
        }
    }
}

/// Files are grouped by number without loss: a file is among those with its number
/// as it is among all, and those with a number have it.
pub proof fn law_with_id(files: Seq<(u64, Seq<char>)>, id: u64)
    ensures
        forall|file: (u64, Seq<char>)|
            #![trigger files.contains(file)]
            #![trigger with_id(files, id).contains(file)]
            with_id(files, id).contains(file) <==> files.contains(file) && file.0 == id,
    decreases files.len(),
{
    if files.len() > 0 {
        let front = files.drop_last();
        law_with_id(front, id);
        assert forall|file: (u64, Seq<char>)|
            #![trigger files.contains(file)]
            #![trigger with_id(files, id).contains(file)]
            with_id(files, id).contains(file) <==> files.contains(file) && file.0 == id by {
            let group = with_id(files, id);
            let before = with_id(front, id);
            if group.contains(file) {
                let j = choose|j: int| 0 <= j < group.len() && group[j] == file;
                if j < before.len() {
                    assert(before[j] == file);
                    assert(before.contains(file));
                    let i = choose|i: int| 0 <= i < front.len() && front[i] == file;
                    assert(files[i] == file);
                } else {
                    assert(files[files.len() - 1] == file);
                }
            }
            if files.contains(file) && file.0 == id {
                let i = choose|i: int| 0 <= i < files.len() && files[i] == file;
                if i < front.len() {
                    assert(front[i] == file);
                    assert(front.contains(file));
                    let j = choose|j: int| 0 <= j < before.len() && before[j] == file;
                    assert(group[j] == file);
                } else {
                    assert(group[group.len() - 1] == file);
                }
            }
        }
    }
}

/// The table files keep the order of the names, and those with one number the order of
/// the files.
pub proof fn law_listing_keeps_order(
    names: Seq<Seq<char>>,
    name: Seq<char>,
    files: Seq<(u64, Seq<char>)>,
    file: (u64, Seq<char>),
    id: u64,
)
    ensures
        tables_among(seq![]) == Seq::<(u64, Seq<char>)>::empty(),
        table_id(name) is Some ==> tables_among(names.push(name)) == tables_among(names).push(
            (table_id(name)->Some_0, name),
        ),
        table_id(name) is None ==> tables_among(names.push(name)) == tables_among(names),
        with_id(seq![], id) == Seq::<(u64, Seq<char>)>::empty(),
        file.0 == id ==> with_id(files.push(file), id) == with_id(files, id).push(file),
        file.0 != id ==> with_id(files.push(file), id) == with_id(files, id),
{
    assert(names.push(name).drop_last() =~= names);
    assert(files.push(file).drop_last() =~= files);
}

} // verus!
