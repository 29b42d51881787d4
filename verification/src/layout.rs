//! The layout of a sorted run in bytes.
//!
//! A run is written as its generation number in four big-endian bytes and
//! then a row of chunks. Each chunk holds a group of entries as a row of
//! messages; the groups, one after the other, are the entries of the run
//! in ascending order of their keys.

use vstd::prelude::*;
use vstd::seq_lib::lemma_flatten_concat;
use crate::command::{be32, be32_value, decode_command, encodable};
use crate::memtable::{all_encodable, entry_command};
use crate::order::{key_le, key_lt, lemma_key_lt_strict_total, lemma_key_lt_transitive};
use crate::run::{ascending, holds, lemma_lookup_at, lookup, sorted, EntryView};
use crate::types::command_record;
use crate::utils::{
    after_chunk, chunk, chunk_is_whole, chunk_length, chunk_payload, lemma_chunk_read_back,
    lemma_message_read_back, message,
};

verus! {

/// The number of bytes that a generation number is written with.
pub const N_BYTES_GENERATION_NUMBER: usize = 4;

/// A row of messages, one for each entry.
pub open spec fn messages(entries: Seq<EntryView>) -> Seq<u8>
    decreases entries.len(),
{
    if entries.len() == 0 {
        Seq::<u8>::empty()
    } else {
        message(entry_command(entries[0])) + messages(entries.drop_first())
    }
}

/// A row of chunks, one for each group of entries.
pub open spec fn body(groups: Seq<Seq<EntryView>>) -> Seq<u8>
    decreases groups.len(),
{
    if groups.len() == 0 {
        Seq::<u8>::empty()
    } else {
        chunk(messages(groups[0])) + body(groups.drop_first())
    }
}

/// The bytes of a run of generation `gen_no` whose chunks hold `groups`.
pub open spec fn image(gen_no: u32, groups: Seq<Seq<EntryView>>) -> Seq<u8> {
    be32(gen_no) + body(groups)
}

/// What a run asks of its groups: none is empty, each fits in a chunk,
/// each entry can be written, and the entries of all groups, one group
/// after the other, ascend strictly.
pub open spec fn valid_layout(groups: Seq<Seq<EntryView>>) -> bool {
    &&& forall|i: int|
        0 <= i < groups.len() ==> (#[trigger] groups[i]).len() > 0 && messages(groups[i]).len()
            <= u32::MAX
    &&& all_encodable(groups.flatten())
    &&& sorted(groups.flatten())
}

/// The offset in the run at which chunk `i` begins.
pub open spec fn chunk_offset(groups: Seq<Seq<EntryView>>, i: int) -> nat {
    N_BYTES_GENERATION_NUMBER as nat + body(groups.take(i)).len()
}

/// The first key of each group.
pub open spec fn first_keys(groups: Seq<Seq<EntryView>>) -> Seq<Seq<char>> {
    Seq::new(groups.len(), |i: int| groups[i][0].key)
}

/// The messages of two rows, one behind the other, are the messages of
/// the first and then those of the second.
pub proof fn lemma_messages_concat(a: Seq<EntryView>, b: Seq<EntryView>)
    ensures
        messages(a + b) == messages(a) + messages(b),
    decreases a.len(),
{
    if a.len() == 0 {
        assert(a + b =~= b);
        assert(messages(a) + messages(b) =~= messages(b));
    } else {
        assert((a + b).drop_first() =~= a.drop_first() + b);
        lemma_messages_concat(a.drop_first(), b);
        assert(messages(a + b) =~= messages(a) + messages(b));
    }
}

/// One more entry behind a row is one more message behind its bytes.
pub proof fn lemma_messages_push(entries: Seq<EntryView>, entry: EntryView)
    ensures
        messages(entries.push(entry)) == messages(entries) + message(entry_command(entry)),
{
    lemma_messages_concat(entries, seq![entry]);
    assert(entries.push(entry) =~= entries + seq![entry]);
    let one = seq![entry];
    assert(one.drop_first() =~= Seq::<EntryView>::empty());
    assert(messages(one.drop_first()) =~= Seq::<u8>::empty());
    assert(messages(one) =~= message(entry_command(entry)));
}

/// The chunks of two rows of groups, one behind the other, are the chunks
/// of the first and then those of the second.
pub proof fn lemma_body_concat(a: Seq<Seq<EntryView>>, b: Seq<Seq<EntryView>>)
    ensures
        body(a + b) == body(a) + body(b),
    decreases a.len(),
{
    if a.len() == 0 {
        assert(a + b =~= b);
        assert(body(a) + body(b) =~= body(b));
    } else {
        assert((a + b).drop_first() =~= a.drop_first() + b);
        lemma_body_concat(a.drop_first(), b);
        assert(body(a + b) =~= body(a) + body(b));
    }
}

/// One more group behind a row is one more chunk behind its bytes.
pub proof fn lemma_body_push(groups: Seq<Seq<EntryView>>, group: Seq<EntryView>)
    ensures
        body(groups.push(group)) == body(groups) + chunk(messages(group)),
{
    lemma_body_concat(groups, seq![group]);
    assert(groups.push(group) =~= groups + seq![group]);
    let one = seq![group];
    assert(one.drop_first() =~= Seq::<Seq<EntryView>>::empty());
    assert(body(one.drop_first()) =~= Seq::<u8>::empty());
    assert(body(one) =~= chunk(messages(group)));
}

/// At the offset of chunk `i` the run holds that chunk, and behind it the
/// chunks of the later groups.
pub proof fn lemma_image_at_offset(gen_no: u32, groups: Seq<Seq<EntryView>>, i: int)
    requires
        0 <= i < groups.len(),
    ensures
        chunk_offset(groups, i) <= image(gen_no, groups).len(),
        image(gen_no, groups).skip(chunk_offset(groups, i) as int) == chunk(messages(groups[i]))
            + body(groups.skip(i + 1)),
        chunk_offset(groups, i + 1) == chunk_offset(groups, i) + chunk(messages(groups[i])).len(),
{
    let before = groups.take(i);
    let behind = groups.skip(i);
    assert(groups =~= before + behind);
    lemma_body_concat(before, behind);
    assert(behind.drop_first() =~= groups.skip(i + 1));
    assert(behind[0] == groups[i]);
    assert(image(gen_no, groups).skip(chunk_offset(groups, i) as int) =~= body(behind));
    assert(groups.take(i + 1) =~= before.push(groups[i]));
    lemma_body_push(before, groups[i]);
}

/// The parts of a sorted row are sorted, and each entry of the front part
/// sorts before each entry of the back part.
pub proof fn lemma_sorted_concat(a: Seq<EntryView>, b: Seq<EntryView>)
    requires
        sorted(a + b),
    ensures
        sorted(a),
        sorted(b),
        forall|i: int, j: int|
            0 <= i < a.len() && 0 <= j < b.len() ==> key_lt(
                (#[trigger] a[i]).key,
                (#[trigger] b[j]).key,
            ),
{
    let whole = a + b;
    assert forall|i: int, j: int| 0 <= i < j < a.len() implies key_lt(
        (#[trigger] a[i]).key,
        (#[trigger] a[j]).key,
    ) by {
        assert(whole[i] == a[i] && whole[j] == a[j]);
    }
    assert forall|i: int, j: int| 0 <= i < j < b.len() implies key_lt(
        (#[trigger] b[i]).key,
        (#[trigger] b[j]).key,
    ) by {
        assert(whole[a.len() + i] == b[i] && whole[a.len() + j] == b[j]);
    }
    assert forall|i: int, j: int| 0 <= i < a.len() && 0 <= j < b.len() implies key_lt(
        (#[trigger] a[i]).key,
        (#[trigger] b[j]).key,
    ) by {
        assert(whole[i] == a[i] && whole[a.len() + j] == b[j]);
    }
}

/// A row holds a key if one of its parts does.
pub proof fn lemma_holds_concat(a: Seq<EntryView>, b: Seq<EntryView>, key: Seq<char>)
    ensures
        holds(a + b, key) == (holds(a, key) || holds(b, key)),
{
    let whole = a + b;
    if holds(a, key) {
        let i = choose|i: int| 0 <= i < a.len() && (#[trigger] a[i]).key == key;
        assert(whole[i].key == key);
    }
    if holds(b, key) {
        let i = choose|i: int| 0 <= i < b.len() && (#[trigger] b[i]).key == key;
        assert(whole[a.len() + i].key == key);
    }
    if holds(whole, key) {
        let i = choose|i: int| 0 <= i < whole.len() && (#[trigger] whole[i]).key == key;
        if i < a.len() {
            assert(a[i].key == key);
        } else {
            assert(b[i - a.len()].key == key);
        }
    }
}

/// What a sorted row holds for a key is what the part holds that has the
/// key.
pub proof fn lemma_lookup_concat(a: Seq<EntryView>, b: Seq<EntryView>, key: Seq<char>)
    requires
        sorted(a + b),
    ensures
        lookup(a + b, key) == if holds(a, key) {
            lookup(a, key)
        } else {
            lookup(b, key)
        },
{
    let whole = a + b;
    lemma_sorted_concat(a, b);
    lemma_holds_concat(a, b, key);
    if holds(a, key) {
        let i = choose|i: int| 0 <= i < a.len() && (#[trigger] a[i]).key == key;
        lemma_lookup_at(a, i);
        assert(whole[i] == a[i]);
        lemma_lookup_at(whole, i);
    } else if holds(b, key) {
        let i = choose|i: int| 0 <= i < b.len() && (#[trigger] b[i]).key == key;
        lemma_lookup_at(b, i);
        assert(whole[a.len() + i] == b[i]);
        lemma_lookup_at(whole, a.len() + i);
    }
}

/// A row that ascends stays so with an entry behind it whose key is
/// greater than its last.
pub proof fn lemma_sorted_push(entries: Seq<EntryView>, entry: EntryView)
    requires
        sorted(entries),
        entries.len() > 0 ==> key_lt(entries.last().key, entry.key),
    ensures
        sorted(entries.push(entry)),
{
    let grown = entries.push(entry);
    assert forall|i: int, j: int| 0 <= i < j < grown.len() implies key_lt(
        (#[trigger] grown[i]).key,
        (#[trigger] grown[j]).key,
    ) by {
        if j == entries.len() {
            assert(grown[i] == entries[i]);
            if i < entries.len() - 1 {
                assert(key_lt(entries[i].key, entries[entries.len() - 1].key));
                lemma_key_lt_transitive(entries[i].key, entries.last().key, entry.key);
            }
        } else {
            assert(grown[i] == entries[i] && grown[j] == entries[j]);
        }
    }
}

/// The groups of a run split at group `i`: the entries are those of the
/// groups before it, its own, and those of the groups behind it.
pub proof fn lemma_split_at_group(groups: Seq<Seq<EntryView>>, i: int)
    requires
        0 <= i < groups.len(),
    ensures
        groups.flatten() == groups.take(i).flatten() + (groups[i] + groups.skip(i + 1).flatten()),
{
    let before = groups.take(i);
    let behind = groups.skip(i);
    assert(groups =~= before + behind);
    lemma_flatten_concat(before, behind);
    assert(behind.drop_first() =~= groups.skip(i + 1));
    assert(behind.first() == groups[i]);
    assert(behind.flatten() =~= groups[i] + groups.skip(i + 1).flatten());
}

/// What a run holds for a key is held by the one group whose first key is
/// not greater than the key while the next group's first key is.
pub proof fn lemma_lookup_in_group(groups: Seq<Seq<EntryView>>, i: int, key: Seq<char>)
    requires
        valid_layout(groups),
        0 <= i < groups.len(),
        key_le(groups[i][0].key, key),
        i + 1 < groups.len() ==> key_lt(key, groups[i + 1][0].key),
    ensures
        sorted(groups[i]),
        lookup(groups.flatten(), key) == lookup(groups[i], key),
{
    let a = groups.take(i).flatten();
    let g = groups[i];
    let c = groups.skip(i + 1).flatten();
    lemma_split_at_group(groups, i);
    lemma_sorted_concat(a, g + c);
    lemma_sorted_concat(g, c);
    lemma_lookup_concat(a, g + c, key);
    lemma_lookup_concat(g, c, key);
    assert(!holds(a, key)) by {
        assert forall|j: int| 0 <= j < a.len() implies (#[trigger] a[j]).key != key by {
            assert((g + c)[0] == g[0]);
            assert(key_lt(a[j].key, (g + c)[0].key));
            lemma_key_lt_strict_total(a[j].key, key);
            if g[0].key != key {
                lemma_key_lt_transitive(a[j].key, g[0].key, key);
            }
        }
    }
    assert(!holds(c, key)) by {
        if i + 1 < groups.len() {
            let rest = groups.skip(i + 1);
            assert(rest.first() == groups[i + 1]);
            assert(c =~= groups[i + 1] + rest.drop_first().flatten());
            assert(c[0] == groups[i + 1][0]);
            assert forall|j: int| 0 <= j < c.len() implies (#[trigger] c[j]).key != key by {
                lemma_key_lt_strict_total(c[j].key, key);
                if j > 0 {
                    assert(key_lt(c[0].key, c[j].key));
                    lemma_key_lt_transitive(key, c[0].key, c[j].key);
                }
            }
        } else {
            assert(groups.skip(i + 1) =~= Seq::<Seq<EntryView>>::empty());
            assert(c.len() == 0);
        }
    }
}

/// A run holds nothing for a key that sorts before its first key.
pub proof fn lemma_lookup_before_all(groups: Seq<Seq<EntryView>>, key: Seq<char>)
    requires
        valid_layout(groups),
        groups.len() > 0 ==> key_lt(key, groups[0][0].key),
    ensures
        lookup(groups.flatten(), key) is None,
{
    let all = groups.flatten();
    if groups.len() > 0 {
        assert(all =~= groups[0] + groups.drop_first().flatten());
        assert(all[0] == groups[0][0]);
        assert forall|j: int| 0 <= j < all.len() implies (#[trigger] all[j]).key != key by {
            lemma_key_lt_strict_total(all[j].key, key);
            if j > 0 {
                assert(key_lt(all[0].key, all[j].key));
                lemma_key_lt_transitive(key, all[0].key, all[j].key);
            }
        }
    } else {
        assert(all.len() == 0);
    }
}

/// The first keys of the groups of a run ascend.
pub proof fn lemma_first_keys_ascend(groups: Seq<Seq<EntryView>>)
    requires
        valid_layout(groups),
    ensures
        ascending(first_keys(groups)),
{
    let firsts = first_keys(groups);
    assert forall|i: int, j: int| 0 <= i < j < firsts.len() implies key_lt(
        #[trigger] firsts[i],
        #[trigger] firsts[j],
    ) by {
        let a = groups.take(j).flatten();
        let g = groups[j];
        let c = groups.skip(j + 1).flatten();
        lemma_split_at_group(groups, j);
        lemma_sorted_concat(a, g + c);
        // groups[i][0] is an entry of `a`.
        let front = groups.take(j);
        lemma_split_at_group(front, i);
        let a0 = front.take(i).flatten();
        assert(front[i] == groups[i]);
        assert(a[a0.len() as int] == groups[i][0]);
        assert((g + c)[0] == g[0]);
        assert(key_lt(a[a0.len() as int].key, (g + c)[0].key));
    }
}

/// The last key of a group sorts before the first key of the next.
pub proof fn lemma_chunks_ascend(groups: Seq<Seq<EntryView>>, i: int)
    requires
        valid_layout(groups),
        0 <= i,
        i + 1 < groups.len(),
    ensures
        key_lt(groups[i].last().key, groups[i + 1][0].key),
{
    let a = groups.take(i).flatten();
    let g = groups[i];
    let c = groups.skip(i + 1).flatten();
    lemma_split_at_group(groups, i);
    lemma_sorted_concat(a, g + c);
    lemma_sorted_concat(g, c);
    let rest = groups.skip(i + 1);
    assert(rest.first() == groups[i + 1]);
    assert(c =~= groups[i + 1] + rest.drop_first().flatten());
    assert(c[0] == groups[i + 1][0]);
    assert(key_lt(g[g.len() - 1].key, c[0].key));
}

/// Each entry of a run can be written, and with it each entry of each of
/// its groups.
pub proof fn lemma_group_encodable(groups: Seq<Seq<EntryView>>, i: int)
    requires
        all_encodable(groups.flatten()),
        0 <= i < groups.len(),
    ensures
        all_encodable(groups[i]),
        all_encodable(groups.skip(i + 1).flatten()),
{
    let a = groups.take(i).flatten();
    let g = groups[i];
    let c = groups.skip(i + 1).flatten();
    let all = groups.flatten();
    lemma_split_at_group(groups, i);
    assert forall|j: int| 0 <= j < g.len() implies encodable(entry_command(#[trigger] g[j])) by {
        assert(all[a.len() + j] == g[j]);
    }
    assert forall|j: int| 0 <= j < c.len() implies encodable(entry_command(#[trigger] c[j])) by {
        assert(all[a.len() + g.len() + j] == c[j]);
    }
}

/// The bytes of the messages of a row that is not empty are not empty.
pub proof fn lemma_messages_not_empty(entries: Seq<EntryView>)
    requires
        entries.len() > 0,
        encodable(entry_command(entries[0])),
    ensures
        messages(entries).len() > 0,
{
    lemma_message_read_back(entry_command(entries[0]), Seq::<u8>::empty());
}

/// Two sorted rows, the last key of the first before the first key of the
/// second, are one sorted row.
pub proof fn lemma_sorted_join(a: Seq<EntryView>, b: Seq<EntryView>)
    requires
        sorted(a),
        sorted(b),
        a.len() > 0 && b.len() > 0 ==> key_lt(a.last().key, b[0].key),
    ensures
        sorted(a + b),
{
    let whole = a + b;
    assert forall|i: int, j: int| 0 <= i < j < whole.len() implies key_lt(
        (#[trigger] whole[i]).key,
        (#[trigger] whole[j]).key,
    ) by {
        if j < a.len() {
            assert(whole[i] == a[i] && whole[j] == a[j]);
        } else if i >= a.len() {
            assert(whole[i] == b[i - a.len()] && whole[j] == b[j - a.len()]);
        } else {
            assert(whole[i] == a[i] && whole[j] == b[j - a.len()]);
            if i < a.len() - 1 {
                assert(key_lt(a[i].key, a[a.len() - 1].key));
                lemma_key_lt_transitive(a[i].key, a.last().key, b[0].key);
            }
            if j > a.len() {
                assert(key_lt(b[0].key, b[j - a.len()].key));
                lemma_key_lt_transitive(a[i].key, b[0].key, b[j - a.len()].key);
            }
        }
    }
}

/// Two rows whose entries can be written are one such row.
pub proof fn lemma_encodable_join(a: Seq<EntryView>, b: Seq<EntryView>)
    requires
        all_encodable(a),
        all_encodable(b),
    ensures
        all_encodable(a + b),
{
    let whole = a + b;
    assert forall|i: int| 0 <= i < whole.len() implies encodable(
        entry_command(#[trigger] whole[i]),
    ) by {
        if i < a.len() {
            assert(whole[i] == a[i]);
        } else {
            assert(whole[i] == b[i - a.len()]);
        }
    }
}

/// The key that the next entry has to sort behind: the last key of
/// `entries`, or `prev` where there are none.
pub open spec fn last_key(prev: Option<Seq<char>>, entries: Seq<EntryView>) -> Option<Seq<char>> {
    if entries.len() > 0 {
        Some(entries.last().key)
    } else {
        prev
    }
}

/// The first key of `entries`, if there is one.
pub open spec fn first_key(entries: Seq<EntryView>) -> Option<Seq<char>> {
    if entries.len() > 0 {
        Some(entries[0].key)
    } else {
        None
    }
}

/// The entries that a row of messages spells, if it spells any: `b` must
/// be messages and nothing else, each command's kind and value must
/// agree, and the keys must ascend strictly, from behind `prev` on.
#[verifier::opaque]
pub open spec fn parse_messages(b: Seq<u8>, prev: Option<Seq<char>>) -> Option<Seq<EntryView>>
    decreases b.len(),
{
    if b.len() == 0 {
        Some(Seq::<EntryView>::empty())
    } else if !chunk_is_whole(b) || chunk_length(b) == 0 {
        None
    } else {
        match decode_command(chunk_payload(b)) {
            None => None,
            Some(command) => match command_record(command) {
                None => None,
                Some(record) => if prev is Some && !key_lt(prev->Some_0, command.key) {
                    None
                } else {
                    match parse_messages(after_chunk(b), Some(command.key)) {
                        None => None,
                        Some(rest) => Some(
                            seq![EntryView { key: command.key, record: record }] + rest,
                        ),
                    }
                },
            },
        }
    }
}

/// The groups that a row of chunks spells, if it spells any: `b` must be
/// chunks and nothing else, and each chunk a row of messages that is not
/// empty.
#[verifier::opaque]
pub open spec fn parse_body(b: Seq<u8>, prev: Option<Seq<char>>) -> Option<Seq<Seq<EntryView>>>
    decreases b.len(),
{
    if b.len() == 0 {
        Some(Seq::<Seq<EntryView>>::empty())
    } else if !chunk_is_whole(b) || chunk_length(b) == 0 {
        None
    } else {
        match parse_messages(chunk_payload(b), prev) {
            None => None,
            Some(group) => match parse_body(after_chunk(b), last_key(prev, group)) {
                None => None,
                Some(rest) => Some(seq![group] + rest),
            },
        }
    }
}

/// The generation number and the groups that the bytes of a file spell,
/// if the file is a run.
pub open spec fn parse_image(b: Seq<u8>) -> Option<(u32, Seq<Seq<EntryView>>)> {
    if b.len() < N_BYTES_GENERATION_NUMBER {
        None
    } else {
        match parse_body(b.skip(N_BYTES_GENERATION_NUMBER as int), None) {
            None => None,
            Some(groups) => Some((be32_value(b) as u32, groups)),
        }
    }
}

/// What was read so far, and then what the rest spells, if it spells
/// anything.
pub open spec fn prepend<T>(done: Seq<T>, rest: Option<Seq<T>>) -> Option<Seq<T>> {
    match rest {
        Some(rest) => Some(done + rest),
        None => None,
    }
}

/// Reading one more item moves it from the rest to what was read.
pub proof fn lemma_prepend_step<T>(done: Seq<T>, item: T, rest: Option<Seq<T>>)
    ensures
        prepend(done, prepend(seq![item], rest)) == prepend(done.push(item), rest),
{
    if rest is Some {
        assert(done + (seq![item] + rest->Some_0) =~= done.push(item) + rest->Some_0);
    }
}

/// When nothing is left, what was read is the whole.
pub proof fn lemma_prepend_end<T>(done: Seq<T>)
    ensures
        prepend(done, Some(Seq::<T>::empty())) == Some(done),
{
    assert(done + Seq::<T>::empty() =~= done);
}

/// A piece at the front of what is left of a source moves to what was
/// taken from it.
pub proof fn lemma_consume(source: Seq<u8>, from: int, at: int, piece: Seq<u8>, rest: Seq<u8>)
    requires
        0 <= from <= at <= source.len(),
        source.skip(at) == piece + rest,
    ensures
        at + piece.len() <= source.len(),
        source.subrange(from, at + piece.len()) == source.subrange(from, at) + piece,
        source.skip(at + piece.len()) == rest,
{
    let whole = piece + rest;
    assert(whole.len() == source.len() - at);
    assert forall|i: int| 0 <= i < piece.len() implies source[at + i] == piece[i] by {
        assert(source.skip(at)[i] == whole[i]);
    }
    assert forall|i: int| 0 <= i < rest.len() implies source[at + piece.len() + i] == rest[i] by {
        assert(source.skip(at)[piece.len() + i] == whole[piece.len() + i]);
    }
    assert(source.subrange(from, at + piece.len()) =~= source.subrange(from, at) + piece);
    assert(source.skip(at + piece.len()) =~= rest);
}

/// The entry that the message at the front of `rem` spells, if it spells
/// one that may follow `prev`.
pub open spec fn front_entry(rem: Seq<u8>, prev: Option<Seq<char>>) -> Option<EntryView> {
    if rem.len() == 0 || !chunk_is_whole(rem) || chunk_length(rem) == 0 {
        None
    } else {
        match decode_command(chunk_payload(rem)) {
            None => None,
            Some(command) => match command_record(command) {
                None => None,
                Some(record) => if prev is Some && !key_lt(prev->Some_0, command.key) {
                    None
                } else {
                    Some(EntryView { key: command.key, record: record })
                },
            },
        }
    }
}

/// One step of reading a row of messages.
pub proof fn lemma_parse_messages_step(rem: Seq<u8>, prev: Option<Seq<char>>)
    requires
        rem.len() > 0,
    ensures
        match front_entry(rem, prev) {
            None => parse_messages(rem, prev) is None,
            Some(entry) => {
                &&& parse_messages(rem, prev) == prepend(
                    seq![entry],
                    parse_messages(after_chunk(rem), Some(entry.key)),
                )
                &&& rem == message(entry_command(entry)) + after_chunk(rem)
                &&& encodable(entry_command(entry))
                &&& decode_command(chunk_payload(rem)) == Some(entry_command(entry))
            },
        },
{
    reveal(parse_messages);
    if front_entry(rem, prev) is Some {
        crate::utils::lemma_chunk_split(rem);
        crate::command::lemma_encode_of_decode(chunk_payload(rem));
    }
}

/// Nothing spells no entries and no groups.
pub proof fn lemma_parse_of_nothing(prev: Option<Seq<char>>)
    ensures
        parse_messages(Seq::<u8>::empty(), prev) == Some(Seq::<EntryView>::empty()),
        parse_body(Seq::<u8>::empty(), prev) == Some(Seq::<Seq<EntryView>>::empty()),
{
    reveal(parse_messages);
    reveal(parse_body);
}

/// One step of reading a row of chunks.
pub proof fn lemma_parse_body_step(rem: Seq<u8>, prev: Option<Seq<char>>)
    requires
        rem.len() > 0,
    ensures
        !chunk_is_whole(rem) || chunk_length(rem) == 0 ==> parse_body(rem, prev) is None,
        chunk_is_whole(rem) && chunk_length(rem) > 0 ==> match parse_messages(
            chunk_payload(rem),
            prev,
        ) {
            None => parse_body(rem, prev) is None,
            Some(group) => {
                &&& parse_body(rem, prev) == prepend(
                    seq![group],
                    parse_body(after_chunk(rem), last_key(prev, group)),
                )
                &&& rem == chunk(chunk_payload(rem)) + after_chunk(rem)
            },
        },
{
    reveal(parse_body);
    if chunk_is_whole(rem) && chunk_length(rem) > 0 {
        crate::utils::lemma_chunk_split(rem);
    }
}

/// A row that can be written stays so with one more such entry, and
/// sorted with one whose key is greater than its last.
pub proof fn lemma_row_push(done: Seq<EntryView>, entry: EntryView)
    requires
        all_encodable(done),
        sorted(done),
        encodable(entry_command(entry)),
        done.len() > 0 ==> key_lt(done.last().key, entry.key),
    ensures
        all_encodable(done.push(entry)),
        sorted(done.push(entry)),
        messages(done.push(entry)) == messages(done) + message(entry_command(entry)),
{
    lemma_sorted_push(done, entry);
    lemma_messages_push(done, entry);
    let grown = done.push(entry);
    assert forall|j: int| 0 <= j < grown.len() implies encodable(
        entry_command(#[trigger] grown[j]),
    ) by {
        if j < done.len() {
            assert(grown[j] == done[j]);
        }
    }
}

/// What holds of the groups that were read from a file so far.
pub open spec fn groups_ok(done: Seq<Seq<EntryView>>) -> bool {
    &&& forall|i: int|
        0 <= i < done.len() ==> (#[trigger] done[i]).len() > 0 && messages(done[i]).len()
            <= u32::MAX
    &&& all_encodable(done.flatten())
    &&& sorted(done.flatten())
}

/// The groups that were read stay in order with one more group whose
/// first key is greater than their last.
pub proof fn lemma_groups_push(done: Seq<Seq<EntryView>>, group: Seq<EntryView>)
    requires
        groups_ok(done),
        group.len() > 0,
        messages(group).len() <= u32::MAX,
        all_encodable(group),
        sorted(group),
        done.flatten().len() > 0 ==> key_lt(done.flatten().last().key, group[0].key),
    ensures
        groups_ok(done.push(group)),
        body(done.push(group)) == body(done) + chunk(messages(group)),
        done.push(group).flatten() == done.flatten() + group,
        last_key(None, done.push(group).flatten()) == Some(group.last().key),
        forall|i: int| 0 <= i < done.len() ==> chunk_offset(done.push(group), i) == chunk_offset(done, i),
        chunk_offset(done.push(group), done.len() as int) == N_BYTES_GENERATION_NUMBER + body(
            done,
        ).len(),
{
    let grown = done.push(group);
    lemma_body_push(done, group);
    done.lemma_flatten_push(group);
    assert(grown.flatten() =~= done.flatten() + group);
    lemma_sorted_join(done.flatten(), group);
    lemma_encodable_join(done.flatten(), group);
    assert(done.take(done.len() as int) =~= done);
    assert forall|i: int| 0 <= i <= done.len() implies chunk_offset(grown, i) == if i
        < done.len() {
        chunk_offset(done, i)
    } else {
        N_BYTES_GENERATION_NUMBER as nat + body(done).len()
    } by {
        assert(grown.take(i) =~= done.take(i));
    }
    assert forall|i: int| 0 <= i < grown.len() implies (#[trigger] grown[i]).len() > 0
        && messages(grown[i]).len() <= u32::MAX by {
        if i < done.len() {
            assert(grown[i] == done[i]);
        }
    }
    assert((done.flatten() + group).last() == group.last());
}

/// What can be written as a command is a record of its own command.
pub proof fn lemma_entry_command(entry: EntryView)
    ensures
        command_record(entry_command(entry)) == Some(entry.record),
        entry_command(entry).key == entry.key,
{
}

/// A row that can be written behind the key `prev`: its entries can be
/// written, they ascend, and the first of them sorts behind `prev`.
#[verifier::opaque]
pub open spec fn row_follows(entries: Seq<EntryView>, prev: Option<Seq<char>>) -> bool {
    &&& all_encodable(entries)
    &&& sorted(entries)
    &&& prev is Some && entries.len() > 0 ==> key_lt(prev->Some_0, entries[0].key)
}

/// A row without its first entry can be written behind that entry.
pub proof fn lemma_row_tail(entries: Seq<EntryView>, prev: Option<Seq<char>>)
    requires
        entries.len() > 0,
        row_follows(entries, prev),
    ensures
        row_follows(entries.drop_first(), Some(entries[0].key)),
        encodable(entry_command(entries[0])),
        prev is Some ==> key_lt(prev->Some_0, entries[0].key),
{
    reveal(row_follows);
    let rest = entries.drop_first();
    assert forall|i: int| 0 <= i < rest.len() implies encodable(
        entry_command(#[trigger] rest[i]),
    ) by {
        assert(rest[i] == entries[i + 1]);
    }
    assert forall|i: int, j: int| 0 <= i < j < rest.len() implies key_lt(
        (#[trigger] rest[i]).key,
        (#[trigger] rest[j]).key,
    ) by {
        assert(rest[i] == entries[i + 1] && rest[j] == entries[j + 1]);
    }
    if rest.len() > 0 {
        assert(rest[0] == entries[1]);
        assert(key_lt(entries[0].key, entries[1].key));
    }
}

/// The message at the front of a row of messages spells the first entry
/// of the row.
pub proof fn lemma_front_of_messages(entries: Seq<EntryView>, prev: Option<Seq<char>>)
    requires
        entries.len() > 0,
        encodable(entry_command(entries[0])),
        prev is Some ==> key_lt(prev->Some_0, entries[0].key),
    ensures
        messages(entries).len() > 0,
        front_entry(messages(entries), prev) == Some(entries[0]),
        after_chunk(messages(entries)) == messages(entries.drop_first()),
{
    let entry = entries[0];
    lemma_entry_command(entry);
    lemma_message_read_back(entry_command(entry), messages(entries.drop_first()));
}

/// A row of messages that was written behind `prev` is read back as its
/// entries.
pub proof fn lemma_parse_of_row(entries: Seq<EntryView>, prev: Option<Seq<char>>)
    requires
        row_follows(entries, prev),
    ensures
        parse_messages(messages(entries), prev) == Some(entries),
    decreases entries.len(),
{
    if entries.len() > 0 {
        let entry = entries[0];
        let rest = entries.drop_first();
        lemma_row_tail(entries, prev);
        lemma_front_of_messages(entries, prev);
        lemma_parse_messages_step(messages(entries), prev);
        lemma_parse_of_row(rest, Some(entry.key));
        lemma_prepend_some(entry, rest, entries);
    } else {
        lemma_parse_of_nothing(prev);
        assert(messages(entries) =~= Seq::<u8>::empty());
        assert(entries =~= Seq::<EntryView>::empty());
    }
}

/// An item before the rest of a row that was read is the row.
pub proof fn lemma_prepend_some<T>(item: T, rest: Seq<T>, whole: Seq<T>)
    requires
        whole.len() > 0,
        whole[0] == item,
        whole.drop_first() == rest,
    ensures
        prepend(seq![item], Some(rest)) == Some(whole),
{
    assert(seq![item] + rest =~= whole);
}

/// A row of messages that was written is read back as its entries.
pub proof fn lemma_parse_of_messages(entries: Seq<EntryView>, prev: Option<Seq<char>>)
    requires
        all_encodable(entries),
        sorted(entries),
        prev is Some && entries.len() > 0 ==> key_lt(prev->Some_0, entries[0].key),
    ensures
        parse_messages(messages(entries), prev) == Some(entries),
{
    reveal(row_follows);
    lemma_parse_of_row(entries, prev);
}

/// Groups that can be written behind the key `prev`: they are those of a
/// run, and the first of their entries sorts behind `prev`.
#[verifier::opaque]
pub open spec fn layout_follows(groups: Seq<Seq<EntryView>>, prev: Option<Seq<char>>) -> bool {
    &&& valid_layout(groups)
    &&& prev is Some && groups.flatten().len() > 0 ==> key_lt(
        prev->Some_0,
        groups.flatten()[0].key,
    )
}

/// A row of groups without its first group can be written behind that
/// group, and the group behind what the row is written behind.
pub proof fn lemma_layout_tail(groups: Seq<Seq<EntryView>>, prev: Option<Seq<char>>)
    requires
        groups.len() > 0,
        layout_follows(groups, prev),
    ensures
        layout_follows(groups.drop_first(), Some(groups[0].last().key)),
        row_follows(groups[0], prev),
        groups[0].len() > 0,
        messages(groups[0]).len() <= u32::MAX,
        messages(groups[0]).len() > 0,
{
    reveal(layout_follows);
    reveal(row_follows);
    let group = groups[0];
    let rest = groups.drop_first();
    assert(groups.skip(1) =~= rest);
    assert(groups.take(0).flatten() =~= Seq::<EntryView>::empty());
    lemma_split_at_group(groups, 0);
    assert(groups.flatten() =~= group + rest.flatten());
    lemma_sorted_concat(group, rest.flatten());
    lemma_group_encodable(groups, 0);
    lemma_messages_not_empty(group);
    assert(groups.flatten()[0] == group[0]);
    assert forall|i: int| 0 <= i < rest.len() implies (#[trigger] rest[i]).len() > 0 && messages(
        rest[i],
    ).len() <= u32::MAX by {
        assert(rest[i] == groups[i + 1]);
    }
    if rest.flatten().len() > 0 {
        assert(key_lt(group[group.len() - 1].key, rest.flatten()[0].key));
    }
}

/// The chunk at the front of a row of chunks holds the messages of the
/// first group.
pub proof fn lemma_front_of_body(groups: Seq<Seq<EntryView>>)
    requires
        groups.len() > 0,
        0 < messages(groups[0]).len() <= u32::MAX,
    ensures
        body(groups).len() > 0,
        chunk_is_whole(body(groups)),
        chunk_length(body(groups)) > 0,
        chunk_payload(body(groups)) == messages(groups[0]),
        after_chunk(body(groups)) == body(groups.drop_first()),
{
    lemma_chunk_read_back(messages(groups[0]), body(groups.drop_first()));
}

/// A row of chunks that was written behind `prev` is read back as its
/// groups.
pub proof fn lemma_parse_of_groups(groups: Seq<Seq<EntryView>>, prev: Option<Seq<char>>)
    requires
        layout_follows(groups, prev),
    ensures
        parse_body(body(groups), prev) == Some(groups),
    decreases groups.len(),
{
    if groups.len() > 0 {
        let group = groups[0];
        let rest = groups.drop_first();
        lemma_layout_tail(groups, prev);
        lemma_front_of_body(groups);
        lemma_parse_of_row(group, prev);
        lemma_parse_body_step(body(groups), prev);
        lemma_parse_of_groups(rest, Some(group.last().key));
        lemma_prepend_some(group, rest, groups);
    } else {
        lemma_parse_of_nothing(prev);
        assert(body(groups) =~= Seq::<u8>::empty());
        assert(groups =~= Seq::<Seq<EntryView>>::empty());
    }
}

/// A row of chunks that was written is read back as its groups.
pub proof fn lemma_parse_of_body(groups: Seq<Seq<EntryView>>, prev: Option<Seq<char>>)
    requires
        valid_layout(groups),
        prev is Some && groups.flatten().len() > 0 ==> key_lt(
            prev->Some_0,
            groups.flatten()[0].key,
        ),
    ensures
        parse_body(body(groups), prev) == Some(groups),
{
    reveal(layout_follows);
    lemma_parse_of_groups(groups, prev);
}

/// The bytes of a run are read back as its generation number and its
/// groups.
pub proof fn lemma_parse_of_image(gen_no: u32, groups: Seq<Seq<EntryView>>)
    requires
        valid_layout(groups),
    ensures
        parse_image(image(gen_no, groups)) == Some((gen_no, groups)),
{
    let file = image(gen_no, groups);
    crate::command::lemma_be32_value_of_be32(gen_no);
    assert(file.skip(4) =~= body(groups));
    assert(be32_value(file) == be32_value(be32(gen_no)));
    lemma_parse_of_body(groups, None);
}

/// Runs with the same bytes have the same generation number and the same
/// groups.
pub proof fn lemma_image_is_one_to_one(
    gen_no: u32,
    groups: Seq<Seq<EntryView>>,
    other_gen_no: u32,
    other_groups: Seq<Seq<EntryView>>,
)
    requires
        valid_layout(groups),
        valid_layout(other_groups),
        image(gen_no, groups) == image(other_gen_no, other_groups),
    ensures
        gen_no == other_gen_no,
        groups == other_groups,
{
    lemma_parse_of_image(gen_no, groups);
    lemma_parse_of_image(other_gen_no, other_groups);
}

} // verus!
