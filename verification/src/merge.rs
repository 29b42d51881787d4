//! The merge of sorted rows into one, in which the youngest row that
//! holds a key answers for it.
//!
//! The rows stand youngest first. The merge looks at the entry at the
//! front of each row, takes the least key among them from the youngest row
//! that has it, and passes over the entries of the same key in older rows.
//! This file holds what is true between two such steps, and the proof
//! that each step keeps it.

use vstd::prelude::*;
use crate::layout::lemma_sorted_push;
use crate::order::{key_le, key_lt, lemma_key_lt_strict_total, lemma_key_lt_transitive};
use crate::run::{holds, lemma_lookup_at, lookup, sorted, youngest, EntryView};

verus! {

/// Each of the rows is sorted.
pub open spec fn rows_sorted(rows: Seq<Seq<EntryView>>) -> bool {
    forall|i: int| 0 <= i < rows.len() ==> sorted(#[trigger] rows[i])
}

/// What holds between two steps of a merge. `cursors[i]` entries of row
/// `i` have been dealt with, and `out` is what was written so far:
/// a sorted row that holds the key of every entry dealt with, whose last
/// key is not greater than any key still to come, and whose every entry
/// is what the youngest row that holds its key has for it.
pub open spec fn merge_inv(
    rows: Seq<Seq<EntryView>>,
    cursors: Seq<int>,
    out: Seq<EntryView>,
) -> bool {
    &&& cursors.len() == rows.len()
    &&& rows_sorted(rows)
    &&& forall|i: int| 0 <= i < rows.len() ==> 0 <= #[trigger] cursors[i] <= rows[i].len()
    &&& sorted(out)
    &&& forall|i: int, j: int|
        0 <= i < rows.len() && 0 <= j < cursors[i] ==> holds(out, (#[trigger] rows[i][j]).key)
    &&& forall|i: int, j: int|
        0 <= i < rows.len() && cursors[i] <= j < rows[i].len() && out.len() > 0 ==> key_le(
            out.last().key,
            (#[trigger] rows[i][j]).key,
        )
    &&& forall|t: int|
        0 <= t < out.len() ==> youngest(rows, (#[trigger] out[t]).key) == Some(out[t].record)
}

/// Row `i` has an entry at its front whose key is the least among the
/// fronts, and no younger row has that key at its front.
pub open spec fn is_least_front(rows: Seq<Seq<EntryView>>, cursors: Seq<int>, i: int) -> bool {
    &&& 0 <= i < rows.len()
    &&& cursors[i] < rows[i].len()
    &&& forall|k: int|
        0 <= k < rows.len() && cursors[k] < rows[k].len() ==> key_le(
            rows[i][cursors[i]].key,
            (#[trigger] rows[k])[cursors[k]].key,
        )
    &&& forall|k: int|
        0 <= k < i && cursors[k] < rows[k].len() ==> (#[trigger] rows[k])[cursors[k]].key
            != rows[i][cursors[i]].key
}

/// If no row younger than row `i` holds `key` and row `i` does, then row
/// `i` answers for `key`.
pub proof fn lemma_youngest_at(rows: Seq<Seq<EntryView>>, i: int, key: Seq<char>)
    requires
        0 <= i < rows.len(),
        forall|k: int| 0 <= k < i ==> !holds(#[trigger] rows[k], key),
        holds(rows[i], key),
    ensures
        youngest(rows, key) == lookup(rows[i], key),
    decreases i,
{
    if i > 0 {
        let older = rows.drop_first();
        assert(!holds(rows[0], key));
        assert forall|k: int| 0 <= k < i - 1 implies !holds(#[trigger] older[k], key) by {
            assert(older[k] == rows[k + 1]);
        }
        assert(older[i - 1] == rows[i]);
        lemma_youngest_at(older, i - 1, key);
    }
}

/// If no row holds `key`, none answers for it.
pub proof fn lemma_youngest_none(rows: Seq<Seq<EntryView>>, key: Seq<char>)
    requires
        forall|k: int| 0 <= k < rows.len() ==> !holds(#[trigger] rows[k], key),
    ensures
        youngest(rows, key) is None,
    decreases rows.len(),
{
    if rows.len() > 0 {
        let older = rows.drop_first();
        assert(!holds(rows[0], key));
        assert forall|k: int| 0 <= k < older.len() implies !holds(#[trigger] older[k], key) by {
            assert(older[k] == rows[k + 1]);
        }
        lemma_youngest_none(older, key);
    }
}

/// Of two runs of rows, one behind the other, the front run answers for
/// every key that one of its rows holds, and the back run for the others.
pub proof fn lemma_youngest_concat(
    front: Seq<Seq<EntryView>>,
    back: Seq<Seq<EntryView>>,
    key: Seq<char>,
)
    ensures
        youngest(front + back, key) == match youngest(front, key) {
            Some(record) => Some(record),
            None => youngest(back, key),
        },
    decreases front.len(),
{
    if front.len() == 0 {
        assert(front + back =~= back);
    } else {
        assert((front + back)[0] == front[0]);
        assert((front + back).drop_first() =~= front.drop_first() + back);
        lemma_youngest_concat(front.drop_first(), back, key);
    }
}

/// A merge that has not begun.
pub proof fn lemma_merge_start(rows: Seq<Seq<EntryView>>)
    requires
        rows_sorted(rows),
    ensures
        merge_inv(rows, Seq::new(rows.len(), |i: int| 0int), Seq::<EntryView>::empty()),
{
}

/// One step of a merge: the entry at the least front is written unless
/// its key was written just before, and its row moves on.
pub proof fn lemma_merge_step(
    rows: Seq<Seq<EntryView>>,
    cursors: Seq<int>,
    out: Seq<EntryView>,
    i: int,
)
    requires
        merge_inv(rows, cursors, out),
        is_least_front(rows, cursors, i),
    ensures
        out.len() > 0 ==> key_le(out.last().key, rows[i][cursors[i]].key),
        out.len() > 0 && out.last().key == rows[i][cursors[i]].key ==> merge_inv(
            rows,
            cursors.update(i, cursors[i] + 1),
            out,
        ),
        !(out.len() > 0 && out.last().key == rows[i][cursors[i]].key) ==> merge_inv(
            rows,
            cursors.update(i, cursors[i] + 1),
            out.push(rows[i][cursors[i]]),
        ),
{
    let c = cursors[i];
    let entry = rows[i][c];
    let next = cursors.update(i, c + 1);
    assert(sorted(rows[i]));
    if out.len() > 0 {
        assert(key_le(out.last().key, rows[i][c].key));
    }
    if out.len() > 0 && out.last().key == entry.key {
        assert forall|k: int, j: int| 0 <= k < rows.len() && 0 <= j < next[k] implies holds(
            out,
            (#[trigger] rows[k][j]).key,
        ) by {
            if k == i && j == c {
                assert(out[out.len() - 1].key == entry.key);
            } else {
                assert(j < cursors[k]);
            }
        }
        assert forall|k: int, j: int|
            0 <= k < rows.len() && next[k] <= j < rows[k].len() && out.len() > 0 implies key_le(
            out.last().key,
            (#[trigger] rows[k][j]).key,
        ) by {
            assert(cursors[k] <= j);
        }
    } else {
        let grown = out.push(entry);
        lemma_sorted_push(out, entry);
        assert forall|k: int, j: int| 0 <= k < rows.len() && 0 <= j < next[k] implies holds(
            grown,
            (#[trigger] rows[k][j]).key,
        ) by {
            if k == i && j == c {
                assert(grown[out.len() as int].key == entry.key);
            } else {
                assert(j < cursors[k]);
                assert(holds(out, rows[k][j].key));
                let t = choose|t: int|
                    0 <= t < out.len() && (#[trigger] out[t]).key == rows[k][j].key;
                assert(grown[t].key == rows[k][j].key);
            }
        }
        assert forall|k: int, j: int|
            0 <= k < rows.len() && next[k] <= j < rows[k].len() && grown.len() > 0 implies key_le(
            grown.last().key,
            (#[trigger] rows[k][j]).key,
        ) by {
            assert(sorted(rows[k]));
            if k == i {
                assert(key_lt(rows[i][c].key, rows[i][j].key));
            } else {
                let front = rows[k][cursors[k]];
                assert(key_le(entry.key, front.key));
                if j > cursors[k] {
                    assert(key_lt(rows[k][cursors[k]].key, rows[k][j].key));
                    if entry.key != front.key {
                        lemma_key_lt_transitive(entry.key, front.key, rows[k][j].key);
                    }
                }
            }
        }
        assert forall|t: int| 0 <= t < grown.len() implies youngest(
            rows,
            (#[trigger] grown[t]).key,
        ) == Some(grown[t].record) by {
            if t < out.len() {
                assert(grown[t] == out[t]);
            } else {
                assert forall|k: int| 0 <= k < i implies !holds(#[trigger] rows[k], entry.key) by {
                    assert(sorted(rows[k]));
                    assert forall|j: int| 0 <= j < rows[k].len() implies (#[trigger] rows[k][j]).key
                        != entry.key by {
                        if j < cursors[k] {
                            assert(holds(out, rows[k][j].key));
                            let t2 = choose|t2: int|
                                0 <= t2 < out.len() && (#[trigger] out[t2]).key == rows[k][j].key;
                            lemma_key_lt_strict_total(out.last().key, entry.key);
                            if t2 < out.len() - 1 {
                                assert(key_lt(out[t2].key, out[out.len() - 1].key));
                                lemma_key_lt_transitive(out[t2].key, out.last().key, entry.key);
                            }
                            lemma_key_lt_strict_total(out[t2].key, entry.key);
                        } else {
                            let front = rows[k][cursors[k]];
                            assert(key_le(entry.key, front.key));
                            assert(front.key != entry.key);
                            if j > cursors[k] {
                                assert(key_lt(rows[k][cursors[k]].key, rows[k][j].key));
                                lemma_key_lt_transitive(entry.key, front.key, rows[k][j].key);
                            }
                            lemma_key_lt_strict_total(entry.key, rows[k][j].key);
                        }
                    }
                }
                lemma_lookup_at(rows[i], c);
                lemma_youngest_at(rows, i, entry.key);
            }
        }
    }
}

/// A merge that has dealt with every entry has written, for every key,
/// what the youngest row that holds the key has for it.
pub proof fn lemma_merge_done(
    rows: Seq<Seq<EntryView>>,
    cursors: Seq<int>,
    out: Seq<EntryView>,
)
    requires
        merge_inv(rows, cursors, out),
        forall|i: int| 0 <= i < rows.len() ==> #[trigger] cursors[i] == rows[i].len(),
    ensures
        sorted(out),
        forall|key: Seq<char>| lookup(out, key) == youngest(rows, key),
{
    assert forall|key: Seq<char>| lookup(out, key) == youngest(rows, key) by {
        if holds(out, key) {
            let t = choose|t: int| 0 <= t < out.len() && (#[trigger] out[t]).key == key;
            lemma_lookup_at(out, t);
        } else {
            assert forall|k: int| 0 <= k < rows.len() implies !holds(#[trigger] rows[k], key) by {
                if holds(rows[k], key) {
                    let j = choose|j: int|
                        0 <= j < rows[k].len() && (#[trigger] rows[k][j]).key == key;
                    assert(cursors[k] == rows[k].len());
                    assert(holds(out, rows[k][j].key));
                }
            }
            lemma_youngest_none(rows, key);
        }
    }
}

/// The number of entries that a merge has still to deal with.
pub open spec fn entries_left(rows: Seq<Seq<EntryView>>, cursors: Seq<int>) -> int
    decreases rows.len(),
{
    if rows.len() == 0 {
        0
    } else {
        entries_left(rows.drop_last(), cursors.drop_last()) + (rows.last().len() - cursors.last())
    }
}

/// Each step of a merge deals with one entry.
pub proof fn lemma_entries_left_step(rows: Seq<Seq<EntryView>>, cursors: Seq<int>, i: int)
    requires
        cursors.len() == rows.len(),
        forall|k: int| 0 <= k < rows.len() ==> 0 <= #[trigger] cursors[k] <= rows[k].len(),
        0 <= i < rows.len(),
        cursors[i] < rows[i].len(),
    ensures
        entries_left(rows, cursors.update(i, cursors[i] + 1)) == entries_left(rows, cursors) - 1,
        entries_left(rows, cursors) > 0,
    decreases rows.len(),
{
    let next = cursors.update(i, cursors[i] + 1);
    lemma_entries_left_bound(rows.drop_last(), cursors.drop_last());
    if i == rows.len() - 1 {
        assert(next.drop_last() =~= cursors.drop_last());
    } else {
        assert(next.drop_last() =~= cursors.drop_last().update(i, cursors[i] + 1));
        lemma_entries_left_step(rows.drop_last(), cursors.drop_last(), i);
    }
}

proof fn lemma_entries_left_bound(rows: Seq<Seq<EntryView>>, cursors: Seq<int>)
    requires
        cursors.len() == rows.len(),
        forall|k: int| 0 <= k < rows.len() ==> 0 <= #[trigger] cursors[k] <= rows[k].len(),
    ensures
        entries_left(rows, cursors) >= 0,
    decreases rows.len(),
{
    if rows.len() > 0 {
        lemma_entries_left_bound(rows.drop_last(), cursors.drop_last());
    }
}

} // verus!
