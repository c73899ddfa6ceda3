//! Names of table files: `000001.sst`, `000002.sst` and so on.

use crate::laws::numbers::{law_tables_among, law_with_id, table_names};
use crate::text::{is_number, lemma_padded_value, number_value, padded, parse_number, push_padded};
use vstd::prelude::*;

verus! {

/// The name of the table file with number `id`.
pub open spec fn table_name(id: u64) -> Seq<char> {
    padded(id as nat, 6) + ".sst"@
}

/// The number of a table file: its name is decimal digits and `.sst`. Any other
/// name, or a number beyond 64 bits, is not a table file.
pub open spec fn table_id(name: Seq<char>) -> Option<u64> {
    let stem = name.take(name.len() - 4);
    if name.len() < 4 || name.skip(name.len() - 4) != ".sst"@ {
        None
    } else if is_number(stem) && number_value(stem) <= u64::MAX {
        Some(number_value(stem) as u64)
    } else {
        None
    }
}

/// The name of the table file with number `id`.
pub fn sst_file_name(id: u64) -> (name: String)
    ensures
        name@ == table_name(id),
{
    let mut name = String::new();
    push_padded(&mut name, id, 6);
    name.append(".sst");
    assert(name@ =~= table_name(id));
    name
}

/// The number of a table file, if `name` is the name of one.
pub fn sst_id(name: &str) -> (id: Option<u64>)
    ensures
        id == table_id(name@),
{
    let len: usize = name.unicode_len();
    proof {
        reveal_strlit(".sst");
    }
    if len < 4 {
        return None;
    }
    let stem: usize = len - 4;
    let ghost tail = name@.skip(stem as int);
    if name.get_char(stem) != '.' || name.get_char(stem + 1) != 's' || name.get_char(stem + 2)
        != 's' || name.get_char(stem + 3) != 't' {
        proof {
            assert(tail[0] != '.' || tail[1] != 's' || tail[2] != 's' || tail[3] != 't');
        }
        return None;
    }
    assert(tail =~= ".sst"@);
    parse_number(name, stem)
}

/// The table files among `names`, with their numbers, in the given order.
pub open spec fn tables_among(names: Seq<Seq<char>>) -> Seq<(u64, Seq<char>)>
    decreases names.len(),
{
    if names.len() == 0 {
        seq![]
    } else {
        let before = tables_among(names.drop_last());
        match table_id(names.last()) {
            Some(id) => before.push((id, names.last())),
            None => before,
        }
    }
}

/// The numbers do not decrease.
pub open spec fn sorted_by_id(files: Seq<(u64, Seq<char>)>) -> bool {
    forall|i: int, j: int| 0 <= i < j < files.len() ==> #[trigger] files[i].0 <= #[trigger] files[j].0
}

/// The files with number `id`, in order.
pub open spec fn with_id(files: Seq<(u64, Seq<char>)>, id: u64) -> Seq<(u64, Seq<char>)>
    decreases files.len(),
{
    if files.len() == 0 {
        seq![]
    } else if files.last().0 == id {
        with_id(files.drop_last(), id).push(files.last())
    } else {
        with_id(files.drop_last(), id)
    }
}

/// Names as sequences of characters.
pub open spec fn name_views(names: Seq<String>) -> Seq<Seq<char>> {
    Seq::new(names.len(), |i: int| names[i]@)
}

/// Files with their names as sequences of characters.
pub open spec fn file_views(files: Seq<(u64, String)>) -> Seq<(u64, Seq<char>)> {
    Seq::new(files.len(), |i: int| (files[i].0, files[i].1@))
}

/// The table files among `names`, in the order of their numbers; names with the
/// same number keep their order. No table file is left out, nothing else is there.
pub fn list_sst_files(names: &Vec<String>) -> (files: Vec<(u64, String)>)
    ensures
        forall|i: int, j: int|
            0 <= i < j < files@.len() ==> (#[trigger] files@[i]).0 <= (#[trigger] files@[j]).0,
        forall|i: int|
            0 <= i < names@.len() && table_id((#[trigger] names@[i])@) is Some ==> exists|j: int|
                0 <= j < files@.len() && (#[trigger] files@[j]).1@ == names@[i]@,
        forall|j: int|
            0 <= j < files@.len() ==> table_id((#[trigger] files@[j]).1@) == Some(files@[j].0) && (
            exists|i: int| 0 <= i < names@.len() && (#[trigger] names@[i])@ == files@[j].1@),
        files@.len() == table_names(name_views(names@)),
        sorted_by_id(file_views(files@)),
        forall|id: u64| #[trigger]
            with_id(file_views(files@), id) == with_id(tables_among(name_views(names@)), id),
{
    let ghost all = name_views(names@);
    let mut files: Vec<(u64, String)> = Vec::new();
    let mut i: usize = 0;
    proof {
        assert(file_views(files@) =~= seq![]);
        assert(all.take(0) =~= seq![]);
    }
    while i < names.len()
        invariant
            i <= names@.len(),
            all == name_views(names@),
            sorted_by_id(file_views(files@)),
            files@.len() == tables_among(all.take(i as int)).len(),
            forall|id: u64| #[trigger]
                with_id(file_views(files@), id) == with_id(tables_among(all.take(i as int)), id),
        decreases names@.len() - i,
    {
        let ghost before = file_views(files@);
        let ghost seen = tables_among(all.take(i as int));
        proof {
            assert(all.take(i + 1).drop_last() =~= all.take(i as int));
            assert(all.take(i + 1).last() == names@[i as int]@);
        }
        if let Some(id) = sst_id(names[i].as_str()) {
            let mut p: usize = files.len();
            while p > 0 && files[p - 1].0 > id
                invariant
                    p <= files@.len(),
                    before == file_views(files@),
                    forall|j: int| p <= j < files@.len() ==> files@[j].0 > id,
                decreases p,
            {
                p = p - 1;
            }
            let name = names[i].clone();
            let ghost file = (id, name@);
            proof {
                assert forall|j: int| 0 <= j < p implies #[trigger] before[j].0 <= id by {
                    if j < p - 1 {
                        assert(before[j].0 <= before[p - 1].0);
                    }
                }
                assert forall|other: u64| #[trigger]
                    with_id(before.insert(p as int, file), other) == with_id(
                        tables_among(all.take(i + 1)),
                        other,
                    ) by {
                    lemma_with_id_insert(before, p as int, file, other);
                    assert(with_id(before, other) == with_id(seen, other));
                    assert(seen.push(file).drop_last() =~= seen);
                }
            }
            files.insert(p, (id, name));
            assert(file_views(files@) =~= before.insert(p as int, file));
        }
        i = i + 1;
    }
    assert(all.take(all.len() as int) =~= all);
    proof {
        lemma_listed(file_views(files@), all);
        assert forall|i: int, j: int| 0 <= i < j < files@.len() implies (#[trigger] files@[i]).0 <= (
        #[trigger] files@[j]).0 by {
            assert(file_views(files@)[i].0 <= file_views(files@)[j].0);
        }
        assert forall|i: int|
            0 <= i < names@.len() && table_id((#[trigger] names@[i])@) is Some implies exists|j: int|
            0 <= j < files@.len() && (#[trigger] files@[j]).1@ == names@[i]@ by {
            let file = (table_id(all[i])->Some_0, all[i]);
            assert(file_views(files@).contains(file));
            let j = choose|j: int| 0 <= j < files@.len() && file_views(files@)[j] == file;
            assert(files@[j].1@ == names@[i]@);
        }
        assert forall|j: int| 0 <= j < files@.len() implies table_id((#[trigger] files@[j]).1@)
            == Some(files@[j].0) && (exists|i: int|
            0 <= i < names@.len() && (#[trigger] names@[i])@ == files@[j].1@) by {
            let file = file_views(files@)[j];
            assert(file_views(files@).contains(file));
            let i = choose|i: int| 0 <= i < all.len() && all[i] == file.1;
            assert(names@[i]@ == files@[j].1@);
        }
    }
    files
}

/// Files that agree number by number with the table files among `names` are these
/// files.
proof fn lemma_listed(files: Seq<(u64, Seq<char>)>, names: Seq<Seq<char>>)
    requires
        forall|id: u64| #[trigger] with_id(files, id) == with_id(tables_among(names), id),
        files.len() == tables_among(names).len(),
    ensures
        files.len() == table_names(names),
        forall|i: int|
            0 <= i < names.len() && table_id(#[trigger] names[i]) is Some ==> files.contains(
                (table_id(names[i])->Some_0, names[i]),
            ),
        forall|file: (u64, Seq<char>)| #[trigger]
            files.contains(file) ==> names.contains(file.1) && table_id(file.1) == Some(file.0),
{
    law_tables_among(names);
    let found = tables_among(names);
    assert forall|file: (u64, Seq<char>)|
        #![trigger files.contains(file)]
        #![trigger found.contains(file)]
        files.contains(file) <==> found.contains(file) by {
        law_with_id(files, file.0);
        law_with_id(found, file.0);
        assert(with_id(files, file.0) == with_id(found, file.0));
        assert(with_id(files, file.0).contains(file) <==> files.contains(file));
    }
}

/// A file that is put behind the files with its number and before those with
/// larger ones comes last among those with its number.
proof fn lemma_with_id_insert(
    files: Seq<(u64, Seq<char>)>,
    p: int,
    file: (u64, Seq<char>),
    id: u64,
)
    requires
        0 <= p <= files.len(),
        forall|j: int| p <= j < files.len() ==> (#[trigger] files[j]).0 > file.0,
    ensures
        with_id(files.insert(p, file), id) == if file.0 == id {
            with_id(files, id).push(file)
        } else {
            with_id(files, id)
        },
    decreases files.len(),
{
    let more = files.insert(p, file);
    if p == files.len() {
        assert(more.drop_last() =~= files);
    } else {
        let front = files.drop_last();
        assert(forall|j: int| p <= j < front.len() ==> #[trigger] front[j] == files[j]);
        lemma_with_id_insert(front, p, file, id);
        assert(more.drop_last() =~= front.insert(p, file));
        assert(more.last() == files[files.len() - 1]);
    }
}

/// The name of a table file says its number.
pub proof fn law_table_name_roundtrip(id: u64)
    ensures
        table_id(table_name(id)) == Some(id),
{
    reveal_strlit(".sst");
    let name = table_name(id);
    let digits = padded(id as nat, 6);
    lemma_padded_value(id as nat, 6);
    assert(name.take(name.len() - 4) =~= digits);
    assert(name.skip(name.len() - 4) =~= ".sst"@);
}

} // verus!
