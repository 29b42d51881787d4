//! Sorted runs: rows of entries in strictly ascending order of their keys.
//!
//! A memtable and a sorted run on disk are both such a row. This file
//! holds the vocabulary that their contracts share (what a row holds for
//! a key, which of several rows answers for a key) and the search over
//! ascending keys that both use.

use vstd::prelude::*;
use vstd::string::*;
use crate::order::{
    compare_keys, key_bytes, key_lt, lemma_key_lt_strict_total, lemma_key_lt_transitive, KeyOrder,
};
use crate::types::{record_len, RecordView};

verus! {

/// A key with the record that a table holds for it.
pub struct EntryView {
    pub key: Seq<char>,
    pub record: RecordView,
}

/// The accounted size of an entry: the bytes of its key and the size of
/// its record.
pub open spec fn entry_weight(entry: EntryView) -> nat {
    key_bytes(entry.key).len() + record_len(entry.record)
}

/// The keys stand in strictly ascending order.
pub open spec fn ascending(keys: Seq<Seq<char>>) -> bool {
    forall|i: int, j: int| 0 <= i < j < keys.len() ==> key_lt(#[trigger] keys[i], #[trigger] keys[j])
}

/// The entries stand in strictly ascending order of their keys.
pub open spec fn sorted(entries: Seq<EntryView>) -> bool {
    forall|i: int, j: int|
        0 <= i < j < entries.len() ==> key_lt(
            (#[trigger] entries[i]).key,
            (#[trigger] entries[j]).key,
        )
}

/// The row has an entry for `key`.
pub open spec fn holds(entries: Seq<EntryView>, key: Seq<char>) -> bool {
    exists|i: int| 0 <= i < entries.len() && (#[trigger] entries[i]).key == key
}

/// The record that the row holds for `key`.
pub open spec fn lookup(entries: Seq<EntryView>, key: Seq<char>) -> Option<RecordView> {
    if holds(entries, key) {
        let i = choose|i: int| 0 <= i < entries.len() && (#[trigger] entries[i]).key == key;
        Some(entries[i].record)
    } else {
        None
    }
}

/// The row as a map from keys to records.
pub open spec fn map_of(entries: Seq<EntryView>) -> Map<Seq<char>, RecordView> {
    Map::new(|key: Seq<char>| holds(entries, key), |key: Seq<char>| lookup(entries, key)->Some_0)
}

/// The sum of the accounted sizes of the entries.
pub open spec fn weight(entries: Seq<EntryView>) -> nat
    decreases entries.len(),
{
    if entries.len() == 0 {
        0
    } else {
        weight(entries.drop_last()) + entry_weight(entries.last())
    }
}

/// The record that the youngest of the rows that hold `key` has for it:
/// the rows stand youngest first.
pub open spec fn youngest(rows: Seq<Seq<EntryView>>, key: Seq<char>) -> Option<RecordView>
    decreases rows.len(),
{
    if rows.len() == 0 {
        None
    } else if holds(rows[0], key) {
        lookup(rows[0], key)
    } else {
        youngest(rows.drop_first(), key)
    }
}

/// In a sorted row, the entry at a place is what the row holds for that
/// entry's key.
pub proof fn lemma_lookup_at(entries: Seq<EntryView>, i: int)
    requires
        sorted(entries),
        0 <= i < entries.len(),
    ensures
        holds(entries, entries[i].key),
        lookup(entries, entries[i].key) == Some(entries[i].record),
{
    let key = entries[i].key;
    let j = choose|j: int| 0 <= j < entries.len() && (#[trigger] entries[j]).key == key;
    lemma_key_lt_strict_total(entries[i].key, entries[j].key);
    if i < j {
        assert(key_lt(entries[i].key, entries[j].key));
    } else if j < i {
        assert(key_lt(entries[j].key, entries[i].key));
    }
}

/// A sorted row holds nothing for a key that lies strictly between two
/// neighbours, before its first key or behind its last.
pub proof fn lemma_lookup_gap(entries: Seq<EntryView>, p: int, key: Seq<char>)
    requires
        sorted(entries),
        0 <= p <= entries.len(),
        p > 0 ==> key_lt(entries[p - 1].key, key),
        p < entries.len() ==> key_lt(key, entries[p].key),
    ensures
        !holds(entries, key),
        lookup(entries, key) is None,
        forall|j: int| 0 <= j < p ==> key_lt((#[trigger] entries[j]).key, key),
        forall|j: int| p <= j < entries.len() ==> key_lt(key, (#[trigger] entries[j]).key),
{
    assert forall|j: int| 0 <= j < p implies key_lt((#[trigger] entries[j]).key, key) by {
        if j < p - 1 {
            lemma_key_lt_transitive(entries[j].key, entries[p - 1].key, key);
        }
    }
    assert forall|j: int| p <= j < entries.len() implies key_lt(
        key,
        (#[trigger] entries[j]).key,
    ) by {
        if j > p {
            lemma_key_lt_transitive(key, entries[p].key, entries[j].key);
        }
    }
    assert forall|j: int| 0 <= j < entries.len() implies (#[trigger] entries[j]).key != key by {
        lemma_key_lt_strict_total(entries[j].key, key);
    }
}

/// Putting an entry at the place where its key belongs keeps the row
/// sorted, maps its key to its record and leaves the other keys as they
/// were; the size grows by the entry's.
pub proof fn lemma_insert_entry(entries: Seq<EntryView>, p: int, entry: EntryView)
    requires
        sorted(entries),
        0 <= p <= entries.len(),
        forall|j: int| 0 <= j < p ==> key_lt((#[trigger] entries[j]).key, entry.key),
        forall|j: int| p <= j < entries.len() ==> key_lt(entry.key, (#[trigger] entries[j]).key),
    ensures
        sorted(entries.insert(p, entry)),
        map_of(entries.insert(p, entry)) == map_of(entries).insert(entry.key, entry.record),
        !holds(entries, entry.key),
        weight(entries.insert(p, entry)) == weight(entries) + entry_weight(entry),
{
    let grown = entries.insert(p, entry);
    entries.insert_ensures(p, entry);
    assert forall|i: int, j: int| 0 <= i < j < grown.len() implies key_lt(
        (#[trigger] grown[i]).key,
        (#[trigger] grown[j]).key,
    ) by {
        let a = if i < p { entries[i] } else if i == p { entry } else { entries[i - 1] };
        let b = if j < p { entries[j] } else if j == p { entry } else { entries[j - 1] };
        assert(grown[i] == a);
        assert(grown[j] == b);
    }
    assert forall|j: int| 0 <= j < entries.len() implies (#[trigger] entries[j]).key
        != entry.key by {
        lemma_key_lt_strict_total(entries[j].key, entry.key);
    }
    assert forall|key: Seq<char>| #[trigger]
        map_of(grown).dom().contains(key) == map_of(entries).insert(
            entry.key,
            entry.record,
        ).dom().contains(key) by {
        if holds(grown, key) {
            let j = choose|j: int| 0 <= j < grown.len() && (#[trigger] grown[j]).key == key;
            if j < p {
                assert(entries[j].key == key);
            } else if j > p {
                assert(entries[j - 1].key == key);
            }
        }
        if holds(entries, key) {
            let j = choose|j: int| 0 <= j < entries.len() && (#[trigger] entries[j]).key == key;
            if j < p {
                assert(grown[j].key == key);
            } else {
                assert(grown[j + 1].key == key);
            }
        }
        if key == entry.key {
            assert(grown[p].key == key);
        }
    }
    assert forall|key: Seq<char>| #[trigger] map_of(grown).dom().contains(key) implies map_of(
        grown,
    )[key] == map_of(entries).insert(entry.key, entry.record)[key] by {
        let j = choose|j: int| 0 <= j < grown.len() && (#[trigger] grown[j]).key == key;
        lemma_lookup_at(grown, j);
        if j < p {
            lemma_lookup_at(entries, j);
        } else if j > p {
            lemma_lookup_at(entries, j - 1);
        }
    }
    assert(map_of(grown) =~= map_of(entries).insert(entry.key, entry.record));
    lemma_weight_insert(entries, p, entry);
}

/// Replacing the record of an entry keeps the row sorted and maps the key
/// to the new record; the size changes by the difference of the records'.
pub proof fn lemma_update_entry(entries: Seq<EntryView>, i: int, entry: EntryView)
    requires
        sorted(entries),
        0 <= i < entries.len(),
        entries[i].key == entry.key,
    ensures
        sorted(entries.update(i, entry)),
        map_of(entries.update(i, entry)) == map_of(entries).insert(entry.key, entry.record),
        holds(entries, entry.key),
        lookup(entries, entry.key) == Some(entries[i].record),
        weight(entries.update(i, entry)) == weight(entries) - entry_weight(entries[i])
            + entry_weight(entry),
        weight(entries) >= entry_weight(entries[i]),
{
    let changed = entries.update(i, entry);
    lemma_lookup_at(entries, i);
    assert forall|a: int, b: int| 0 <= a < b < changed.len() implies key_lt(
        (#[trigger] changed[a]).key,
        (#[trigger] changed[b]).key,
    ) by {
        assert(changed[a].key == entries[a].key);
        assert(changed[b].key == entries[b].key);
    }
    assert forall|key: Seq<char>| #[trigger]
        map_of(changed).dom().contains(key) == map_of(entries).insert(
            entry.key,
            entry.record,
        ).dom().contains(key) by {
        if holds(changed, key) {
            let j = choose|j: int| 0 <= j < changed.len() && (#[trigger] changed[j]).key == key;
            assert(entries[j].key == key);
        }
        if holds(entries, key) {
            let j = choose|j: int| 0 <= j < entries.len() && (#[trigger] entries[j]).key == key;
            assert(changed[j].key == key);
        }
    }
    assert forall|key: Seq<char>| #[trigger] map_of(changed).dom().contains(key) implies map_of(
        changed,
    )[key] == map_of(entries).insert(entry.key, entry.record)[key] by {
        let j = choose|j: int| 0 <= j < changed.len() && (#[trigger] changed[j]).key == key;
        lemma_lookup_at(changed, j);
        lemma_lookup_at(entries, j);
        if j != i {
            lemma_key_lt_strict_total(entries[i].key, entries[j].key);
            if i < j {
                assert(key_lt(entries[i].key, entries[j].key));
            } else {
                assert(key_lt(entries[j].key, entries[i].key));
            }
        }
    }
    assert(map_of(changed) =~= map_of(entries).insert(entry.key, entry.record));
    lemma_weight_update(entries, i, entry);
}

proof fn lemma_weight_insert(entries: Seq<EntryView>, p: int, entry: EntryView)
    requires
        0 <= p <= entries.len(),
    ensures
        weight(entries.insert(p, entry)) == weight(entries) + entry_weight(entry),
    decreases entries.len() - p,
{
    let grown = entries.insert(p, entry);
    if p == entries.len() {
        assert(grown.drop_last() =~= entries);
        assert(grown.last() == entry);
    } else {
        assert(grown.drop_last() =~= entries.drop_last().insert(p, entry));
        assert(grown.last() == entries.last());
        lemma_weight_insert(entries.drop_last(), p, entry);
    }
}

proof fn lemma_weight_update(entries: Seq<EntryView>, i: int, entry: EntryView)
    requires
        0 <= i < entries.len(),
    ensures
        weight(entries.update(i, entry)) == weight(entries) - entry_weight(entries[i])
            + entry_weight(entry),
        weight(entries) >= entry_weight(entries[i]),
    decreases entries.len(),
{
    let changed = entries.update(i, entry);
    if i == entries.len() - 1 {
        assert(changed.drop_last() =~= entries.drop_last());
    } else {
        assert(changed.drop_last() =~= entries.drop_last().update(i, entry));
        lemma_weight_update(entries.drop_last(), i, entry);
    }
}

/// The keys of strings as mathematical values.
pub open spec fn key_views(keys: Seq<String>) -> Seq<Seq<char>> {
    Seq::new(keys.len(), |i: int| keys[i]@)
}

/// A copy of the keys.
pub fn copy_keys(keys: &Vec<String>) -> (copy: Vec<String>)
    ensures
        key_views(copy@) == key_views(keys@),
{
    let mut copy: Vec<String> = Vec::new();
    let mut i: usize = 0;
    while i < keys.len()
        invariant
            i <= keys@.len(),
            copy@.len() == i,
            forall|j: int| 0 <= j < i ==> (#[trigger] copy@[j])@ == keys@[j]@,
        decreases keys@.len() - i,
    {
        copy.push(keys[i].clone());
        i += 1;
    }
    assert(key_views(copy@) =~= key_views(keys@));
    copy
}

/// Where `key` stands among ascending keys: `(true, i)` if it is the key
/// at `i`, else `(false, p)` with `p` the place where it belongs, behind
/// every smaller key and before every greater one.
pub fn search(keys: &Vec<String>, key: &str) -> (r: (bool, usize))
    requires
        ascending(key_views(keys@)),
    ensures
        r.1 <= keys@.len(),
        r.0 ==> r.1 < keys@.len() && keys@[r.1 as int]@ == key@,
        !r.0 ==> forall|j: int| 0 <= j < r.1 ==> key_lt((#[trigger] keys@[j])@, key@),
        !r.0 ==> forall|j: int| r.1 <= j < keys@.len() ==> key_lt(key@, (#[trigger] keys@[j])@),
{
    let ghost views = key_views(keys@);
    let mut lo: usize = 0;
    let mut hi: usize = keys.len();
    while lo < hi
        invariant
            lo <= hi <= keys@.len(),
            views == key_views(keys@),
            ascending(views),
            forall|j: int| 0 <= j < lo ==> key_lt((#[trigger] keys@[j])@, key@),
            forall|j: int| hi <= j < keys@.len() ==> key_lt(key@, (#[trigger] keys@[j])@),
        decreases hi - lo,
    {
        let mid = lo + (hi - lo) / 2;
        match compare_keys(keys[mid].as_str(), key) {
            KeyOrder::Same => {
                return (true, mid);
            },
            KeyOrder::Before => {
                assert forall|j: int| 0 <= j < mid + 1 implies key_lt(
                    (#[trigger] keys@[j])@,
                    key@,
                ) by {
                    if j < mid {
                        assert(key_lt(views[j], views[mid as int]));
                        lemma_key_lt_transitive(keys@[j]@, keys@[mid as int]@, key@);
                    }
                }
                lo = mid + 1;
            },
            KeyOrder::After => {
                assert forall|j: int| mid <= j < keys@.len() implies key_lt(
                    key@,
                    (#[trigger] keys@[j])@,
                ) by {
                    lemma_key_lt_strict_total(keys@[mid as int]@, key@);
                    if j > mid {
                        assert(key_lt(views[mid as int], views[j]));
                        lemma_key_lt_transitive(key@, keys@[mid as int]@, keys@[j]@);
                    }
                }
                hi = mid;
            },
        }
    }
    (false, lo)
}

} // verus!
