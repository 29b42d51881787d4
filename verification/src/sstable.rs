//! Sorted runs on disk: immutable rows of entries with a sparse index.
//!
//! A run holds the bytes of its file and, for each chunk of the file, the
//! first key of the chunk and the offset at which the chunk begins. A
//! lookup finds the one chunk that may hold a key and reads that chunk
//! alone.

use vstd::prelude::*;
use vstd::string::*;
use crate::command::{encodable, put_be32, Command, CommandType};
use crate::layout::{
    body, chunk_offset, first_key, first_keys, front_entry, groups_ok, image, last_key, lemma_consume,
    lemma_first_keys_ascend, lemma_group_encodable, lemma_groups_push, lemma_image_at_offset,
    lemma_lookup_before_all, lemma_lookup_in_group, lemma_messages_not_empty,
    lemma_parse_body_step, lemma_parse_messages_step, lemma_prepend_end, lemma_prepend_step,
    lemma_row_push, messages, parse_body, parse_image, parse_messages, prepend, valid_layout,
    N_BYTES_GENERATION_NUMBER,
};
use crate::memtable::{all_encodable, entry_command, Memtable};
use crate::order::{compare_keys, key_lt, KeyOrder};
use crate::run::{
    ascending, key_views, lemma_lookup_at, lemma_lookup_gap, lookup, search, sorted, EntryView,
};
use crate::types::{option_record_view, NaiveError, Record};
use crate::utils::{
    chunk, lemma_chunk_read_back, lemma_message_read_back, message, read_chunk, read_message,
    ByteReader,
};

verus! {

/// A chunk of a run is written once the bytes gathered for it number at
/// least this.
pub const SSTABLE_CHUNK_SIZE_THRESHOLD: usize = 1024;

/// The sparse index of a run: the first key of each chunk, in ascending
/// order, with the offset of the chunk.
pub struct SSTableIndex {
    keys: Vec<String>,
    offsets: Vec<u64>,
}

impl SSTableIndex {
    /// The index is that of a run whose chunks hold `groups`.
    pub closed spec fn describes(&self, groups: Seq<Seq<EntryView>>) -> bool {
        &&& self.keys@.len() == groups.len()
        &&& self.offsets@.len() == groups.len()
        &&& forall|i: int| 0 <= i < groups.len() ==> (#[trigger] self.keys@[i])@ == groups[i][0].key
        &&& forall|i: int|
            0 <= i < groups.len() ==> (#[trigger] self.offsets@[i]) == chunk_offset(groups, i)
    }

    /// The number of chunks.
    pub closed spec fn spec_len(&self) -> nat {
        self.keys@.len()
    }

    /// An index without chunks.
    pub fn new() -> (index: SSTableIndex)
        ensures
            index.describes(Seq::<Seq<EntryView>>::empty()),
            index.spec_len() == 0,
    {
        SSTableIndex { keys: Vec::new(), offsets: Vec::new() }
    }

    /// The number of chunks.
    pub fn len(&self) -> (n: usize)
        ensures
            n == self.spec_len(),
    {
        self.keys.len()
    }

    /// What a search among the first keys says of the groups.
    proof fn lemma_floor(&self, groups: Seq<Seq<EntryView>>, key: Seq<char>, found: bool, place: int)
        requires
            self.describes(groups),
            valid_layout(groups),
            0 <= place <= groups.len(),
            found || place > 0,
            found ==> place < groups.len() && self.keys@[place]@ == key,
            !found ==> forall|j: int| 0 <= j < place ==> key_lt((#[trigger] self.keys@[j])@, key),
            !found ==> forall|j: int|
                place <= j < groups.len() ==> key_lt(key, (#[trigger] self.keys@[j])@),
        ensures
            ({
                let at = if found {
                    place
                } else {
                    place - 1
                };
                &&& 0 <= at < groups.len()
                &&& crate::order::key_le(groups[at][0].key, key)
                &&& at + 1 < groups.len() ==> key_lt(key, groups[at + 1][0].key)
            }),
    {
        let at = if found {
            place
        } else {
            place - 1
        };
        lemma_first_keys_ascend(groups);
        let firsts = first_keys(groups);
        assert(self.keys@[at]@ == groups[at][0].key);
        if at + 1 < groups.len() {
            assert(self.keys@[at + 1]@ == groups[at + 1][0].key);
            if found {
                assert(key_lt(firsts[at], firsts[at + 1]));
            }
        }
    }

    proof fn lemma_keys_ascend(&self, groups: Seq<Seq<EntryView>>)
        requires
            self.describes(groups),
            valid_layout(groups),
        ensures
            ascending(key_views(self.keys@)),
    {
        lemma_first_keys_ascend(groups);
        assert(key_views(self.keys@) =~= first_keys(groups));
    }
}

/// A sorted run.
pub struct SSTable {
    /// The generation number.
    gen_no: usize,
    /// The number of the compaction cycle that wrote the run; 0 for a run
    /// that was found on disk.
    epoch_no: u64,
    /// The sparse index.
    index: SSTableIndex,
    /// The bytes of the segment file.
    file: Vec<u8>,
    /// The path of the segment file.
    file_path: String,
    /// The size of the segment file in bytes.
    file_size: usize,
    /// Whether the file is to be removed once the run is dropped.
    is_deprecated: bool,
    /// The entries that each chunk holds.
    layout: Ghost<Seq<Seq<EntryView>>>,
}

impl SSTable {
    /// The entries that each chunk holds.
    pub closed spec fn groups(&self) -> Seq<Seq<EntryView>> {
        self.layout@
    }

    /// The entries of the run, in ascending order of their keys.
    pub open spec fn entries(&self) -> Seq<EntryView> {
        self.groups().flatten()
    }

    /// The bytes of the segment file.
    pub closed spec fn file_bytes(&self) -> Seq<u8> {
        self.file@
    }

    /// The generation number.
    pub closed spec fn generation(&self) -> nat {
        self.gen_no as nat
    }

    /// The number of the compaction cycle that wrote the run.
    pub closed spec fn epoch(&self) -> nat {
        self.epoch_no as nat
    }

    /// The path of the segment file.
    pub closed spec fn path(&self) -> Seq<char> {
        self.file_path@
    }

    /// Whether the file is to be removed once the run is dropped.
    pub closed spec fn deprecated(&self) -> bool {
        self.is_deprecated
    }

    /// The keys of the sparse index, in ascending order.
    pub closed spec fn index_keys(&self) -> Seq<Seq<char>> {
        key_views(self.index.keys@)
    }

    /// The offsets of the sparse index, in the order of its keys.
    pub closed spec fn index_offsets(&self) -> Seq<u64> {
        self.index.offsets@
    }

    /// The file is the image of the groups under the generation number,
    /// the groups are those of a run, and the index describes them.
    pub closed spec fn inv(&self) -> bool {
        &&& self.gen_no <= u32::MAX
        &&& self.file@ == image(self.gen_no as u32, self.layout@)
        &&& self.file_size == self.file@.len()
        &&& valid_layout(self.layout@)
        &&& self.index.describes(self.layout@)
    }

    /// What the invariant says, for those who cannot see inside.
    pub proof fn lemma_inv(&self)
        requires
            self.inv(),
        ensures
            self.generation() <= u32::MAX,
            self.file_bytes() == image(self.generation() as u32, self.groups()),
            valid_layout(self.groups()),
            sorted(self.entries()),
            all_encodable(self.entries()),
    {
    }

    /// The sparse index holds, for each chunk, the first key of the chunk
    /// and the offset in the file at which the chunk begins.
    pub proof fn lemma_index(&self)
        requires
            self.inv(),
        ensures
            self.index_keys() == first_keys(self.groups()),
            self.index_offsets().len() == self.groups().len(),
            forall|i: int|
                0 <= i < self.groups().len() ==> #[trigger] self.index_offsets()[i]
                    == chunk_offset(self.groups(), i),
    {
        assert(key_views(self.index.keys@) =~= first_keys(self.layout@));
    }

    /// The generation number that the file begins with is that of the
    /// run.
    pub proof fn lemma_header(&self)
        requires
            self.inv(),
        ensures
            self.file_bytes().len() >= N_BYTES_GENERATION_NUMBER,
            crate::command::be32_value(self.file_bytes()) == self.generation(),
    {
        crate::command::lemma_be32_value_of_be32(self.gen_no as u32);
        assert(crate::command::be32_value(self.file@) == crate::command::be32_value(
            crate::command::be32(self.gen_no as u32),
        ));
    }

    /// Of two chunks that follow each other, the last key of the first
    /// sorts before the first key of the second.
    pub proof fn lemma_chunk_order(&self, i: int)
        requires
            self.inv(),
            0 <= i,
            i + 1 < self.groups().len(),
        ensures
            key_lt(self.groups()[i].last().key, self.groups()[i + 1][0].key),
    {
        crate::layout::lemma_chunks_ascend(self.layout@, i);
    }

    /// The file of a run is read back as the run.
    pub proof fn lemma_reads_back(&self)
        requires
            self.inv(),
        ensures
            parse_image(self.file_bytes()) == Some((self.generation() as u32, self.groups())),
    {
        crate::layout::lemma_parse_of_image(self.gen_no as u32, self.layout@);
    }

    /// A run without entries: its file holds the generation number and
    /// nothing else. A generation number that four bytes cannot hold is
    /// refused.
    pub fn create_empty(file_path: String, gen_no: usize, epoch_no: u64) -> (r: Result<
        SSTable,
        NaiveError,
    >)
        ensures
            gen_no > u32::MAX ==> (r matches Err(e) && e == NaiveError::InvalidData),
            gen_no <= u32::MAX ==> {
                &&& r matches Ok(table)
                &&& table.inv()
                &&& table.generation() == gen_no
                &&& table.epoch() == epoch_no
                &&& table.path() == file_path@
                &&& !table.deprecated()
                &&& table.groups() == Seq::<Seq<EntryView>>::empty()
                &&& table.entries() == Seq::<EntryView>::empty()
            },
    {
        if gen_no > 0xffff_ffff {
            return Err(NaiveError::InvalidData);
        }
        let mut file: Vec<u8> = Vec::new();
        put_be32(&mut file, gen_no as u32);
        let file_size = file.len();
        let table = SSTable {
            gen_no,
            epoch_no,
            index: SSTableIndex::new(),
            file,
            file_path,
            file_size,
            is_deprecated: false,
            layout: Ghost(Seq::<Seq<EntryView>>::empty()),
        };
        assert(table.file@ =~= image(gen_no as u32, table.layout@));
        assert(table.layout@.flatten() =~= Seq::<EntryView>::empty());
        Ok(table)
    }

    /// The record that the run holds for `key`: a tombstone is returned
    /// as it is.
    pub fn get(&self, key: &str) -> (r: Result<Option<Record>, NaiveError>)
        requires
            self.inv(),
        ensures
            r matches Ok(found) && option_record_view(found) == lookup(self.entries(), key@),
    {
        let ghost groups = self.layout@;
        proof {
            self.index.lemma_keys_ascend(groups);
        }
        // Find the greatest indexed key that is not greater than the query key.
        let (found, place) = search(&self.index.keys, key);
        if !found && place == 0 {
            proof {
                if groups.len() > 0 {
                    assert(key_lt(key@, self.index.keys@[0]@));
                }
                lemma_lookup_before_all(groups, key@);
            }
            return Ok(None);
        }
        let at: usize = if found {
            place
        } else {
            place - 1
        };
        proof {
            self.index.lemma_floor(groups, key@, found, place as int);
            lemma_lookup_in_group(groups, at as int, key@);
            lemma_image_at_offset(self.gen_no as u32, groups, at as int);
            lemma_group_encodable(groups, at as int);
            lemma_chunk_read_back(messages(groups[at as int]), body(groups.skip(at + 1)));
            assert(self.index.offsets@[at as int] == chunk_offset(groups, at as int));
        }
        let offset = self.index.offsets[at];
        let mut buffer: Vec<u8> = Vec::new();
        match seek_and_read_chunk(&self.file, &mut buffer, offset) {
            Err(e) => {
                return Err(e);
            },
            Ok(_) => {},
        }
        find_in_chunk(buffer.as_slice(), key, Ghost(groups[at as int]))
    }

    /// A copy of the run: its file, its index, its path and its numbers.
    pub fn duplicate(&self) -> (copy: SSTable)
        requires
            self.inv(),
        ensures
            copy.inv(),
            copy.groups() == self.groups(),
            copy.file_bytes() == self.file_bytes(),
            copy.generation() == self.generation(),
            copy.epoch() == self.epoch(),
            copy.path() == self.path(),
            copy.deprecated() == self.deprecated(),
    {
        let keys = crate::run::copy_keys(&self.index.keys);
        let mut offsets: Vec<u64> = Vec::new();
        let mut i: usize = 0;
        while i < self.index.offsets.len()
            invariant
                i <= self.index.offsets@.len(),
                offsets@ == self.index.offsets@.take(i as int),
            decreases self.index.offsets@.len() - i,
        {
            offsets.push(self.index.offsets[i]);
            i += 1;
            assert(offsets@ =~= self.index.offsets@.take(i as int));
        }
        assert(offsets@ =~= self.index.offsets@);
        let mut file: Vec<u8> = Vec::new();
        crate::command::put_bytes(&mut file, self.file.as_slice());
        assert(file@ =~= self.file@);
        let copy = SSTable {
            gen_no: self.gen_no,
            epoch_no: self.epoch_no,
            index: SSTableIndex { keys, offsets },
            file,
            file_path: self.file_path.clone(),
            file_size: self.file_size,
            is_deprecated: self.is_deprecated,
            layout: Ghost(self.layout@),
        };
        proof {
            let groups = self.layout@;
            assert(copy.index.keys@.len() == groups.len()) by {
                assert(key_views(copy.index.keys@).len() == key_views(self.index.keys@).len());
            }
            assert forall|j: int| 0 <= j < groups.len() implies (#[trigger] copy.index.keys@[j])@
                == groups[j][0].key by {
                assert(key_views(copy.index.keys@)[j] == key_views(self.index.keys@)[j]);
            }
        }
        copy
    }

    /// The generation number.
    pub fn gen_no(&self) -> (gen_no: usize)
        ensures
            gen_no == self.generation(),
    {
        self.gen_no
    }

    /// The number of the compaction cycle that wrote the run.
    pub fn epoch_no(&self) -> (epoch_no: u64)
        ensures
            epoch_no == self.epoch(),
    {
        self.epoch_no
    }

    /// The size of the segment file in bytes.
    pub fn file_size(&self) -> (size: usize)
        requires
            self.inv(),
        ensures
            size == self.file_bytes().len(),
    {
        self.file_size
    }

    /// The path of the segment file.
    pub fn file_path(&self) -> (path: &String)
        ensures
            path@ == self.path(),
    {
        &self.file_path
    }

    /// The bytes of the segment file.
    pub fn file(&self) -> (file: &Vec<u8>)
        ensures
            file@ == self.file_bytes(),
    {
        &self.file
    }

    /// Whether the file is to be removed once the run is dropped.
    pub fn is_deprecated(&self) -> (deprecated: bool)
        ensures
            deprecated == self.deprecated(),
    {
        self.is_deprecated
    }

    /// Marks the file for removal: called once the run has been merged
    /// into another. The mark is never taken back.
    pub fn deprecate(&mut self) -> (r: Result<(), NaiveError>)
        ensures
            r is Ok,
            final(self).deprecated(),
            final(self).groups() == old(self).groups(),
            final(self).file_bytes() == old(self).file_bytes(),
            final(self).generation() == old(self).generation(),
            final(self).epoch() == old(self).epoch(),
            final(self).path() == old(self).path(),
            old(self).inv() ==> final(self).inv(),
    {
        self.is_deprecated = true;
        Ok(())
    }
}

/// Reads the chunk that begins at `offset` of `file` into `buffer` and
/// returns its length.
fn seek_and_read_chunk(file: &Vec<u8>, buffer: &mut Vec<u8>, offset: u64) -> (r: Result<
    usize,
    NaiveError,
>)
    requires
        offset <= file@.len(),
    ensures
        crate::utils::chunk_is_whole(file@.skip(offset as int)) ==> {
            &&& r matches Ok(n)
            &&& n == crate::utils::chunk_length(file@.skip(offset as int))
            &&& final(buffer)@ == crate::utils::chunk_payload(file@.skip(offset as int))
        },
        !crate::utils::chunk_is_whole(file@.skip(offset as int)) ==> r is Err,
{
    let mut reader = ByteReader::new(file.as_slice());
    let len = file.len();
    reader.seek(offset as usize);
    read_chunk(&mut reader, buffer)
}

/// Reads the entry at the reader, which stands in a row of messages.
fn read_entry(reader: &mut ByteReader, Ghost(rest): Ghost<Seq<EntryView>>) -> (r: Result<
    (String, Record),
    NaiveError,
>)
    requires
        old(reader).remaining() == messages(rest),
        rest.len() > 0,
        all_encodable(rest),
    ensures
        r matches Ok(entry) && entry.0@ == rest[0].key && entry.1@ == rest[0].record,
        final(reader).remaining() == messages(rest.drop_first()),
        final(reader).bytes == old(reader).bytes,
        all_encodable(rest.drop_first()),
{
    proof {
        lemma_message_read_back(entry_command(rest[0]), messages(rest.drop_first()));
        assert forall|i: int| 0 <= i < rest.drop_first().len() implies encodable(
            entry_command(#[trigger] rest.drop_first()[i]),
        ) by {
            assert(rest.drop_first()[i] == rest[i + 1]);
        }
    }
    let command = match read_message(reader) {
        Err(e) => {
            return Err(e);
        },
        Ok(None) => {
            return Err(NaiveError::InvalidData);
        },
        Ok(Some(command)) => command,
    };
    let record = match Record::from_command(&command) {
        Err(e) => {
            return Err(e);
        },
        Ok(record) => record,
    };
    Ok((command.get_key().to_owned(), record))
}

/// Looks for `key` among the messages of one chunk, front to back.
fn find_in_chunk(chunk: &[u8], key: &str, Ghost(group): Ghost<Seq<EntryView>>) -> (r: Result<
    Option<Record>,
    NaiveError,
>)
    requires
        chunk@ == messages(group),
        sorted(group),
        all_encodable(group),
    ensures
        r matches Ok(found) && option_record_view(found) == lookup(group, key@),
{
    let mut reader = ByteReader::new(chunk);
    let ghost mut seen: int = 0;
    assert(group.skip(0) =~= group);
    while reader.remaining_len() > 0
        invariant
            0 <= seen <= group.len(),
            reader.remaining() == messages(group.skip(seen)),
            all_encodable(group.skip(seen)),
            sorted(group),
            forall|t: int| 0 <= t < seen ==> key_lt((#[trigger] group[t]).key, key@),
        decreases group.len() - seen,
    {
        let ghost rest = group.skip(seen);
        assert(rest.len() > 0) by {
            if rest.len() == 0 {
                assert(messages(rest).len() == 0);
            }
        }
        assert(rest[0] == group[seen]);
        let (entry_key, record) = match read_entry(&mut reader, Ghost(rest)) {
            Err(e) => {
                return Err(e);
            },
            Ok(entry) => entry,
        };
        match compare_keys(entry_key.as_str(), key) {
            KeyOrder::Before => {
                proof {
                    assert(rest.drop_first() =~= group.skip(seen + 1));
                    seen = seen + 1;
                }
            },
            KeyOrder::Same => {
                proof {
                    lemma_lookup_at(group, seen);
                }
                return Ok(Some(record));
            },
            KeyOrder::After => {
                proof {
                    crate::order::lemma_key_lt_strict_total(group[seen].key, key@);
                    if seen > 0 {
                        assert(key_lt(group[seen - 1].key, key@));
                    }
                    lemma_lookup_gap(group, seen, key@);
                }
                return Ok(None);
            },
        }
    }
    proof {
        if seen < group.len() {
            lemma_messages_not_empty(group.skip(seen));
        }
        if seen > 0 {
            assert(key_lt(group[seen - 1].key, key@));
        }
        lemma_lookup_gap(group, seen, key@);
    }
    Ok(None)
}

/// A pass over the entries of a run in ascending order of their keys,
/// which reads one chunk at a time.
pub struct SSTableIterator<'a> {
    /// The run.
    sstable: &'a SSTable,
    /// The number of chunks that have been read.
    next_chunk: usize,
    /// The chunk that was read last.
    chunk_buffer: Vec<u8>,
    /// The offset into `chunk_buffer` of the next message.
    chunk_offset: usize,
    /// The entries of `chunk_buffer` that are still to come.
    rest: Ghost<Seq<EntryView>>,
}

impl<'a> SSTableIterator<'a> {
    /// The entries that are still to come.
    pub closed spec fn remaining(&self) -> Seq<EntryView> {
        self.rest@ + self.sstable.layout@.skip(self.next_chunk as int).flatten()
    }

    /// The pass is over a sound run, and what is left of the chunk that was
    /// read last are the messages of the entries that are still to come
    /// from it.
    pub closed spec fn wf(&self) -> bool {
        &&& self.sstable.inv()
        &&& self.next_chunk <= self.sstable.layout@.len()
        &&& self.chunk_offset <= self.chunk_buffer@.len()
        &&& self.chunk_buffer@.skip(self.chunk_offset as int) == messages(self.rest@)
        &&& all_encodable(self.rest@)
    }

    /// The next entry, or `None` when the pass is over.
    #[verifier::rlimit(40)]
    pub fn next(&mut self) -> (r: Result<Option<(String, Record)>, NaiveError>)
        requires
            old(self).wf(),
        ensures
            final(self).wf(),
            old(self).remaining().len() == 0 ==> {
                &&& r matches Ok(None)
                &&& final(self).remaining() == old(self).remaining()
            },
            old(self).remaining().len() > 0 ==> {
                &&& r matches Ok(Some(entry))
                &&& entry.0@ == old(self).remaining()[0].key
                &&& entry.1@ == old(self).remaining()[0].record
                &&& final(self).remaining() == old(self).remaining().drop_first()
            },
    {
        loop
            invariant
                self.wf(),
                self.remaining() == old(self).remaining(),
            decreases self.sstable.layout@.len() - self.next_chunk,
        {
            let ghost groups = self.sstable.layout@;
            let ghost rest = self.rest@;
            let ghost later = groups.skip(self.next_chunk as int).flatten();
            if self.chunk_offset < self.chunk_buffer.len() {
                assert(rest.len() > 0) by {
                    if rest.len() == 0 {
                        assert(messages(rest).len() == 0);
                    }
                }
                let len = self.chunk_buffer.len();
                let mut reader = ByteReader::new(self.chunk_buffer.as_slice());
                reader.seek(self.chunk_offset);
                let entry = match read_entry(&mut reader, Ghost(rest)) {
                    Err(e) => {
                        return Err(e);
                    },
                    Ok(entry) => entry,
                };
                let position = reader.position();
                self.chunk_offset = if position <= len {
                    position
                } else {
                    len
                };
                self.rest = Ghost(rest.drop_first());
                proof {
                    assert(self.chunk_buffer@.skip(self.chunk_offset as int) =~= messages(
                        rest.drop_first(),
                    ));
                    assert((rest + later).drop_first() =~= rest.drop_first() + later);
                    assert((rest + later)[0] == rest[0]);
                }
                return Ok(Some(entry));
            }
            proof {
                if rest.len() > 0 {
                    lemma_messages_not_empty(rest);
                }
                assert(rest + later =~= later);
            }
            if self.next_chunk < self.sstable.index.len() {
                let ghost at = self.next_chunk as int;
                proof {
                    lemma_image_at_offset(self.sstable.gen_no as u32, groups, at);
                    lemma_group_encodable(groups, at);
                    lemma_chunk_read_back(messages(groups[at]), body(groups.skip(at + 1)));
                    assert(self.sstable.index.offsets@[at] == chunk_offset(groups, at));
                    let behind = groups.skip(at);
                    assert(behind.first() == groups[at]);
                    assert(behind.drop_first() =~= groups.skip(at + 1));
                    assert(later =~= groups[at] + groups.skip(at + 1).flatten());
                }
                let offset = self.sstable.index.offsets[self.next_chunk];
                match seek_and_read_chunk(&self.sstable.file, &mut self.chunk_buffer, offset) {
                    Err(e) => {
                        return Err(e);
                    },
                    Ok(_) => {},
                }
                self.chunk_offset = 0;
                self.next_chunk = self.next_chunk + 1;
                self.rest = Ghost(groups[at]);
                proof {
                    assert(self.chunk_buffer@.skip(0) =~= self.chunk_buffer@);
                }
            } else {
                proof {
                    assert(groups.skip(self.next_chunk as int) =~= Seq::<Seq<EntryView>>::empty());
                    assert(later.len() == 0);
                }
                return Ok(None);
            }
        }
    }
}

impl SSTable {
    /// A pass over the entries in ascending order of their keys.
    pub fn pseudo_iter(&self) -> (iter: SSTableIterator<'_>)
        requires
            self.inv(),
        ensures
            iter.wf(),
            iter.remaining() == self.entries(),
    {
        let iter = SSTableIterator {
            sstable: self,
            next_chunk: 0,
            chunk_buffer: Vec::new(),
            chunk_offset: 0,
            rest: Ghost(Seq::<EntryView>::empty()),
        };
        proof {
            assert(self.layout@.skip(0) =~= self.layout@);
            assert(iter.remaining() =~= self.entries());
            assert(iter.chunk_buffer@.skip(0) =~= messages(Seq::<EntryView>::empty()));
        }
        iter
    }
}

/// The chunks of a run close as the writer closes them: each chunk but
/// its last message is below the threshold, and each chunk but the last of
/// the run has reached it.
pub open spec fn chunked_by_threshold(groups: Seq<Seq<EntryView>>) -> bool {
    forall|i: int|
        0 <= i < groups.len() ==> messages((#[trigger] groups[i]).drop_last()).len()
            < SSTABLE_CHUNK_SIZE_THRESHOLD && (i + 1 < groups.len() ==> messages(groups[i]).len()
            >= SSTABLE_CHUNK_SIZE_THRESHOLD)
}

/// A run that is being written: its file and index so far, and the
/// messages gathered for the chunk that is open.
struct RunWriter {
    index: SSTableIndex,
    file_writer: Vec<u8>,
    buffer: Vec<u8>,
    gen_no: Ghost<u32>,
    closed: Ghost<Seq<Seq<EntryView>>>,
    open: Ghost<Seq<EntryView>>,
}

impl RunWriter {
    /// The entries that were handed to the writer, in their order.
    spec fn written(&self) -> Seq<EntryView> {
        self.closed@.flatten() + self.open@
    }

    /// The generation number that the file begins with.
    spec fn generation(&self) -> u32 {
        self.gen_no@
    }

    spec fn wf(&self) -> bool {
        writer_ok(
            key_views(self.index.keys@),
            self.index.offsets@,
            self.file_writer@,
            self.buffer@,
            self.gen_no@,
            self.closed@,
            self.open@,
        )
    }

    /// A writer of a run of generation `gen_no`, which has written the
    /// generation number and nothing else.
    fn new(gen_no: u32) -> (writer: RunWriter)
        ensures
            writer.wf(),
            writer.generation() == gen_no,
            writer.written() == Seq::<EntryView>::empty(),
    {
        let mut file_writer: Vec<u8> = Vec::new();
        // Write the generation number at the beginning of the file.
        put_be32(&mut file_writer, gen_no);
        let writer = RunWriter {
            index: SSTableIndex::new(),
            file_writer,
            buffer: Vec::new(),
            gen_no: Ghost(gen_no),
            closed: Ghost(Seq::<Seq<EntryView>>::empty()),
            open: Ghost(Seq::<EntryView>::empty()),
        };
        proof {
            assert(writer.file_writer@ =~= image(gen_no, writer.closed@));
            assert(writer.written() =~= Seq::<EntryView>::empty());
        }
        writer
    }

    /// Writes out the chunk that is open, if it holds anything, and hands
    /// over the index, the file and the groups of the run.
    fn finish(self) -> (r: (SSTableIndex, Vec<u8>, Ghost<Seq<Seq<EntryView>>>))
        requires
            self.wf(),
        ensures
            r.1@ == image(self.generation(), r.2@),
            valid_layout(r.2@),
            r.0.describes(r.2@),
            r.2@.flatten() == self.written(),
            chunked_by_threshold(r.2@),
    {
        let ghost closed = self.closed@;
        let ghost open = self.open@;
        let ghost gen_no = self.gen_no@;
        let ghost keys = key_views(self.index.keys@);
        let ghost offsets = self.index.offsets@;
        let ghost file = self.file_writer@;
        let RunWriter { index, file_writer, buffer, gen_no: _, closed: _, open: _ } = self;
        let mut file_writer = file_writer;
        proof {
            lemma_writer_open(keys, offsets, file, buffer@, gen_no, closed, open);
        }
        if !buffer.is_empty() {
            // Write out the remaining buffered bytes into a chunk.
            match crate::utils::write_chunk(&mut file_writer, buffer.as_slice()) {
                Ok(()) => {},
                Err(_) => {},
            }
            let ghost groups = closed.push(open);
            proof {
                lemma_close_group(keys, offsets, file, gen_no, closed, open);
                closed.lemma_flatten_push(open);
                assert(groups.flatten() =~= closed.flatten() + open);
                lemma_messages_drop_last(open);
                lemma_thresholded_last(closed, open);
                lemma_describes(index, keys, offsets, file_writer@, gen_no, groups);
            }
            (index, file_writer, Ghost(groups))
        } else {
            proof {
                assert(closed.flatten() + open =~= closed.flatten());
                lemma_describes(index, keys, offsets, file, gen_no, closed);
            }
            (index, file_writer, Ghost(closed))
        }
    }
}

/// The messages of a row without its last entry are no more bytes than
/// those of the row.
proof fn lemma_messages_drop_last(entries: Seq<EntryView>)
    requires
        entries.len() > 0,
    ensures
        messages(entries.drop_last()).len() <= messages(entries).len(),
{
    assert(entries =~= entries.drop_last().push(entries.last()));
    crate::layout::lemma_messages_push(entries.drop_last(), entries.last());
}

/// What a writer holds of the chunks that are closed: the file is their
/// image, each of them holds an entry and fits in a chunk, and the index
/// begins with the first key and the offset of each.
spec fn closed_ok(
    keys: Seq<Seq<char>>,
    offsets: Seq<u64>,
    file: Seq<u8>,
    gen_no: u32,
    closed: Seq<Seq<EntryView>>,
) -> bool {
    &&& file == image(gen_no, closed)
    &&& keys.len() >= closed.len()
    &&& offsets.len() >= closed.len()
    &&& forall|i: int|
        0 <= i < closed.len() ==> (#[trigger] closed[i]).len() > 0 && messages(closed[i]).len()
            <= u32::MAX
    &&& forall|i: int| 0 <= i < closed.len() ==> #[trigger] keys[i] == closed[i][0].key
    &&& forall|i: int| 0 <= i < closed.len() ==> (#[trigger] offsets[i]) == chunk_offset(closed, i)
}

/// Each of the chunks was closed as soon as it reached the threshold.
spec fn thresholded(closed: Seq<Seq<EntryView>>) -> bool {
    forall|i: int|
        0 <= i < closed.len() ==> messages((#[trigger] closed[i]).drop_last()).len()
            < SSTABLE_CHUNK_SIZE_THRESHOLD <= messages(closed[i]).len()
}

/// What a writer holds while a run is being written: beyond what holds of
/// the closed chunks, the buffer holds the messages of the chunk that is
/// open, and the index ends with the first key of that chunk and the
/// offset at which it will be written.
spec fn writer_ok(
    keys: Seq<Seq<char>>,
    offsets: Seq<u64>,
    file: Seq<u8>,
    buffer: Seq<u8>,
    gen_no: u32,
    closed: Seq<Seq<EntryView>>,
    open: Seq<EntryView>,
) -> bool {
    &&& closed_ok(keys, offsets, file, gen_no, closed)
    &&& thresholded(closed)
    &&& buffer == messages(open)
    &&& buffer.len() < SSTABLE_CHUNK_SIZE_THRESHOLD
    &&& all_encodable(closed.flatten() + open)
    &&& sorted(closed.flatten() + open)
    &&& keys.len() == offsets.len()
    &&& keys.len() == closed.len() + if open.len() > 0 {
        1int
    } else {
        0int
    }
    &&& open.len() > 0 ==> keys[closed.len() as int] == open[0].key && offsets[closed.len() as int]
        == file.len()
}

/// The entries of the chunk that is open can be written, and the buffer
/// is empty exactly if the chunk is.
proof fn lemma_writer_open(
    keys: Seq<Seq<char>>,
    offsets: Seq<u64>,
    file: Seq<u8>,
    buffer: Seq<u8>,
    gen_no: u32,
    closed: Seq<Seq<EntryView>>,
    open: Seq<EntryView>,
)
    requires
        writer_ok(keys, offsets, file, buffer, gen_no, closed, open),
    ensures
        all_encodable(open),
        (buffer.len() == 0) == (open.len() == 0),
{
    let before = closed.flatten() + open;
    assert forall|j: int| 0 <= j < open.len() implies encodable(
        entry_command(#[trigger] open[j]),
    ) by {
        assert(before[closed.flatten().len() + j] == open[j]);
    }
    if open.len() > 0 {
        lemma_messages_not_empty(open);
    }
}

/// An entry behind the written ones, with a greater key than theirs,
/// keeps the written entries sorted and writable.
proof fn lemma_written_push(closed: Seq<Seq<EntryView>>, open: Seq<EntryView>, entry: EntryView)
    requires
        all_encodable(closed.flatten() + open),
        sorted(closed.flatten() + open),
        encodable(entry_command(entry)),
        (closed.flatten() + open).len() > 0 ==> key_lt(
            (closed.flatten() + open).last().key,
            entry.key,
        ),
    ensures
        closed.flatten() + open.push(entry) == (closed.flatten() + open).push(entry),
        closed.push(open.push(entry)).flatten() == (closed.flatten() + open).push(entry),
        all_encodable((closed.flatten() + open).push(entry)),
        sorted((closed.flatten() + open).push(entry)),
{
    let before = closed.flatten() + open;
    let after = before.push(entry);
    crate::layout::lemma_sorted_push(before, entry);
    assert(closed.flatten() + open.push(entry) =~= after);
    closed.lemma_flatten_push(open.push(entry));
    assert(closed.push(open.push(entry)).flatten() =~= after);
    assert forall|j: int| 0 <= j < after.len() implies encodable(
        entry_command(#[trigger] after[j]),
    ) by {
        if j < before.len() {
            assert(after[j] == before[j]);
        }
    }
}

/// Writing out a chunk whose first key and offset the index holds already
/// makes it one of the closed chunks.
proof fn lemma_close_group(
    keys: Seq<Seq<char>>,
    offsets: Seq<u64>,
    file: Seq<u8>,
    gen_no: u32,
    closed: Seq<Seq<EntryView>>,
    group: Seq<EntryView>,
)
    requires
        closed_ok(keys, offsets, file, gen_no, closed),
        keys.len() > closed.len(),
        offsets.len() > closed.len(),
        group.len() > 0,
        messages(group).len() <= u32::MAX,
        keys[closed.len() as int] == group[0].key,
        offsets[closed.len() as int] == file.len(),
    ensures
        closed_ok(keys, offsets, file + chunk(messages(group)), gen_no, closed.push(group)),
{
    let groups = closed.push(group);
    crate::layout::lemma_body_push(closed, group);
    assert(file + chunk(messages(group)) =~= image(gen_no, groups));
    assert(closed.take(closed.len() as int) =~= closed);
    assert forall|i: int| 0 <= i < groups.len() implies (#[trigger] offsets[i]) == chunk_offset(
        groups,
        i,
    ) by {
        assert(groups.take(i) =~= closed.take(i));
    }
}

/// A chunk that reached the threshold with its last entry is closed as
/// the others were.
proof fn lemma_thresholded_push(closed: Seq<Seq<EntryView>>, group: Seq<EntryView>)
    requires
        thresholded(closed),
        group.len() > 0,
        messages(group.drop_last()).len() < SSTABLE_CHUNK_SIZE_THRESHOLD <= messages(group).len(),
    ensures
        thresholded(closed.push(group)),
{
    let groups = closed.push(group);
    assert forall|i: int| 0 <= i < groups.len() implies messages(
        (#[trigger] groups[i]).drop_last(),
    ).len() < SSTABLE_CHUNK_SIZE_THRESHOLD <= messages(groups[i]).len() by {
        if i < closed.len() {
            assert(groups[i] == closed[i]);
        }
    }
}

/// The chunk that is written out last may be smaller than the threshold.
proof fn lemma_thresholded_last(closed: Seq<Seq<EntryView>>, group: Seq<EntryView>)
    requires
        thresholded(closed),
        group.len() > 0,
        messages(group).len() < SSTABLE_CHUNK_SIZE_THRESHOLD,
    ensures
        chunked_by_threshold(closed.push(group)),
{
    let groups = closed.push(group);
    lemma_messages_drop_last(group);
    assert forall|i: int| 0 <= i < groups.len() implies messages(
        (#[trigger] groups[i]).drop_last(),
    ).len() < SSTABLE_CHUNK_SIZE_THRESHOLD && (i + 1 < groups.len() ==> messages(
        groups[i],
    ).len() >= SSTABLE_CHUNK_SIZE_THRESHOLD) by {
        if i < closed.len() {
            assert(groups[i] == closed[i]);
        }
    }
}

/// An index that holds the first key and the offset of each chunk, and
/// nothing else, describes the chunks.
proof fn lemma_describes(
    index: SSTableIndex,
    keys: Seq<Seq<char>>,
    offsets: Seq<u64>,
    file: Seq<u8>,
    gen_no: u32,
    groups: Seq<Seq<EntryView>>,
)
    requires
        keys == key_views(index.keys@),
        offsets == index.offsets@,
        closed_ok(keys, offsets, file, gen_no, groups),
        keys.len() == groups.len(),
        offsets.len() == groups.len(),
    ensures
        index.describes(groups),
{
    assert forall|i: int| 0 <= i < groups.len() implies (#[trigger] index.keys@[i])@
        == groups[i][0].key by {
        assert(keys[i] == index.keys@[i]@);
    }
}

/// What the writer holds after an entry went into the open chunk and the
/// chunk stayed open.
proof fn lemma_writer_keep(
    keys: Seq<Seq<char>>,
    offsets: Seq<u64>,
    file: Seq<u8>,
    buffer: Seq<u8>,
    gen_no: u32,
    closed: Seq<Seq<EntryView>>,
    open: Seq<EntryView>,
    entry: EntryView,
    keys2: Seq<Seq<char>>,
    offsets2: Seq<u64>,
)
    requires
        writer_ok(keys, offsets, file, buffer, gen_no, closed, open),
        encodable(entry_command(entry)),
        (closed.flatten() + open).len() > 0 ==> key_lt(
            (closed.flatten() + open).last().key,
            entry.key,
        ),
        open.len() > 0 ==> keys2 == keys && offsets2 == offsets,
        open.len() == 0 ==> keys2 == keys.push(entry.key) && offsets2 == offsets.push(
            file.len() as u64,
        ),
        file.len() <= u64::MAX,
        (buffer + message(entry_command(entry))).len() < SSTABLE_CHUNK_SIZE_THRESHOLD,
    ensures
        writer_ok(
            keys2,
            offsets2,
            file,
            buffer + message(entry_command(entry)),
            gen_no,
            closed,
            open.push(entry),
        ),
{
    crate::layout::lemma_messages_push(open, entry);
    lemma_written_push(closed, open, entry);
}

/// What the writer holds after an entry went into the open chunk and the
/// chunk was written out.
#[verifier::rlimit(40)]
proof fn lemma_writer_flush(
    keys: Seq<Seq<char>>,
    offsets: Seq<u64>,
    file: Seq<u8>,
    buffer: Seq<u8>,
    gen_no: u32,
    closed: Seq<Seq<EntryView>>,
    open: Seq<EntryView>,
    entry: EntryView,
    keys2: Seq<Seq<char>>,
    offsets2: Seq<u64>,
)
    requires
        writer_ok(keys, offsets, file, buffer, gen_no, closed, open),
        encodable(entry_command(entry)),
        (closed.flatten() + open).len() > 0 ==> key_lt(
            (closed.flatten() + open).last().key,
            entry.key,
        ),
        open.len() > 0 ==> keys2 == keys && offsets2 == offsets,
        open.len() == 0 ==> keys2 == keys.push(entry.key) && offsets2 == offsets.push(
            file.len() as u64,
        ),
        file.len() <= u64::MAX,
        (buffer + message(entry_command(entry))).len() >= SSTABLE_CHUNK_SIZE_THRESHOLD,
    ensures
        (buffer + message(entry_command(entry))).len() <= u32::MAX,
        writer_ok(
            keys2,
            offsets2,
            file + chunk(buffer + message(entry_command(entry))),
            Seq::<u8>::empty(),
            gen_no,
            closed.push(open.push(entry)),
            Seq::<EntryView>::empty(),
        ),
{
    let group = open.push(entry);
    let groups = closed.push(group);
    let nothing = Seq::<EntryView>::empty();
    crate::layout::lemma_messages_push(open, entry);
    lemma_message_read_back(entry_command(entry), Seq::<u8>::empty());
    lemma_written_push(closed, open, entry);
    assert(group.drop_last() =~= open);
    assert(group[0] == if open.len() > 0 {
        open[0]
    } else {
        entry
    });
    assert(closed_ok(keys2, offsets2, file, gen_no, closed));
    lemma_close_group(keys2, offsets2, file, gen_no, closed, group);
    lemma_thresholded_push(closed, group);
    assert(groups.flatten() + nothing =~= groups.flatten());
}

/// Hands the next entry of a run to its writer. The first key of each
/// chunk goes into the index with the offset of the chunk, and a chunk is
/// written out once its messages reach the threshold.
fn append_command_to_sstable(writer: &mut RunWriter, key: String, record: Record) -> (r: Result<
    (),
    NaiveError,
>)
    requires
        old(writer).wf(),
        encodable(entry_command(EntryView { key: key@, record: record@ })),
        old(writer).written().len() > 0 ==> key_lt(old(writer).written().last().key, key@),
    ensures
        r is Ok,
        final(writer).wf(),
        final(writer).generation() == old(writer).generation(),
        final(writer).written() == old(writer).written().push(
            EntryView { key: key@, record: record@ },
        ),
{
    let ghost entry = EntryView { key: key@, record: record@ };
    let ghost closed = writer.closed@;
    let ghost open = writer.open@;
    let ghost keys = key_views(writer.index.keys@);
    let ghost offsets = writer.index.offsets@;
    let ghost file = writer.file_writer@;
    let ghost buffer = writer.buffer@;
    let ghost gen_no = writer.gen_no@;
    proof {
        lemma_writer_open(keys, offsets, file, buffer, gen_no, closed, open);
        lemma_written_push(closed, open, entry);
    }
    if writer.buffer.is_empty() {
        // This is the first key in the chunk.
        let offset = writer.file_writer.len() as u64;
        writer.index.keys.push(key.clone());
        writer.index.offsets.push(offset);
        proof {
            assert(key_views(writer.index.keys@) =~= keys.push(entry.key));
        }
    }
    let ghost keys2 = key_views(writer.index.keys@);
    let ghost offsets2 = writer.index.offsets@;
    let mut command = Command::new();
    command.set_key(key);
    match record {
        Record::Value(value) => {
            command.set_command_type(CommandType::SET_VALUE);
            command.set_value(value);
        },
        Record::Deleted => {
            command.set_command_type(CommandType::DELETE);
        },
    }
    assert(command@ == entry_command(entry));
    match crate::utils::write_message(&command, &mut writer.buffer) {
        Err(e) => {
            return Err(e);
        },
        Ok(()) => {},
    }
    if writer.buffer.len() >= SSTABLE_CHUNK_SIZE_THRESHOLD {
        proof {
            lemma_writer_flush(
                keys,
                offsets,
                file,
                buffer,
                gen_no,
                closed,
                open,
                entry,
                keys2,
                offsets2,
            );
        }
        // Write the chunk if its size exceeds the threshold.
        match crate::utils::write_chunk(&mut writer.file_writer, writer.buffer.as_slice()) {
            Err(e) => {
                return Err(e);
            },
            Ok(()) => {},
        }
        writer.buffer.clear();
        proof {
            writer.closed@ = closed.push(open.push(entry));
            writer.open@ = Seq::<EntryView>::empty();
            assert(closed.push(open.push(entry)).flatten() + Seq::<EntryView>::empty()
                =~= closed.push(open.push(entry)).flatten());
        }
    } else {
        proof {
            lemma_writer_keep(
                keys,
                offsets,
                file,
                buffer,
                gen_no,
                closed,
                open,
                entry,
                keys2,
                offsets2,
            );
            writer.open@ = open.push(entry);
        }
    }
    Ok(())
}

/// The rows that a merge reads, youngest first: the entries of the
/// memtable, then those of each run.
pub open spec fn merge_rows(memtable: Memtable, sstables: Seq<SSTable>) -> Seq<Seq<EntryView>> {
    seq![memtable.entries()] + Seq::new(sstables.len(), |i: int| sstables[i].entries())
}

/// The entry at the front of a row of which `cursor` entries have been
/// dealt with is the one that `front` holds, if there is one left.
spec fn front_matches(
    front: Option<(String, Record)>,
    row: Seq<EntryView>,
    cursor: int,
) -> bool {
    match front {
        Some((key, record)) => cursor < row.len() && key@ == row[cursor].key && record@
            == row[cursor].record,
        None => cursor == row.len(),
    }
}

/// The entries of a row behind its front.
spec fn behind_front(row: Seq<EntryView>, cursor: int) -> Seq<EntryView> {
    if cursor < row.len() {
        row.skip(cursor + 1)
    } else {
        Seq::<EntryView>::empty()
    }
}

/// The key of a front.
spec fn front_key(front: Option<(String, Record)>) -> Seq<char> {
    front->Some_0.0@
}

/// Finds the front with the least key; where several rows have that key
/// at their front, the youngest of them.
fn least_front(fronts: &Vec<Option<(String, Record)>>) -> (r: Option<usize>)
    ensures
        match r {
            None => forall|k: int| 0 <= k < fronts@.len() ==> (#[trigger] fronts@[k]) is None,
            Some(i) => {
                &&& i < fronts@.len()
                &&& fronts@[i as int] is Some
                &&& forall|k: int|
                    0 <= k < fronts@.len() && (#[trigger] fronts@[k]) is Some ==> crate::order::key_le(
                        front_key(fronts@[i as int]),
                        front_key(fronts@[k]),
                    )
                &&& forall|k: int|
                    0 <= k < i && (#[trigger] fronts@[k]) is Some ==> front_key(fronts@[k])
                        != front_key(fronts@[i as int])
            },
        },
{
    let mut best: Option<usize> = None;
    let mut k: usize = 0;
    while k < fronts.len()
        invariant
            k <= fronts@.len(),
            match best {
                None => forall|j: int| 0 <= j < k ==> (#[trigger] fronts@[j]) is None,
                Some(i) => {
                    &&& i < k
                    &&& fronts@[i as int] is Some
                    &&& forall|j: int|
                        0 <= j < k && (#[trigger] fronts@[j]) is Some ==> crate::order::key_le(
                            front_key(fronts@[i as int]),
                            front_key(fronts@[j]),
                        )
                    &&& forall|j: int|
                        0 <= j < i && (#[trigger] fronts@[j]) is Some ==> front_key(fronts@[j])
                            != front_key(fronts@[i as int])
                },
            },
        decreases fronts@.len() - k,
    {
        match &fronts[k] {
            None => {},
            Some(candidate) => {
                match best {
                    None => {
                        best = Some(k);
                    },
                    Some(i) => {
                        let least = match &fronts[i] {
                            Some(least) => least,
                            None => candidate,
                        };
                        match compare_keys(candidate.0.as_str(), least.0.as_str()) {
                            KeyOrder::Before => {
                                proof {
                                    let new_key = front_key(fronts@[k as int]);
                                    let old_key = front_key(fronts@[i as int]);
                                    assert forall|j: int|
                                        0 <= j < k + 1 && (#[trigger] fronts@[j])
                                            is Some implies crate::order::key_le(
                                        new_key,
                                        front_key(fronts@[j]),
                                    ) && (j < k ==> front_key(fronts@[j]) != new_key) by {
                                        if j < k {
                                            let other = front_key(fronts@[j]);
                                            assert(crate::order::key_le(old_key, other));
                                            if old_key != other {
                                                crate::order::lemma_key_lt_transitive(
                                                    new_key,
                                                    old_key,
                                                    other,
                                                );
                                            }
                                            crate::order::lemma_key_lt_strict_total(new_key, other);
                                        }
                                    }
                                }
                                best = Some(k);
                            },
                            _ => {
                                proof {
                                    crate::order::lemma_key_lt_strict_total(
                                        front_key(fronts@[k as int]),
                                        front_key(fronts@[i as int]),
                                    );
                                }
                            },
                        }
                    },
                }
            },
        }
        k += 1;
    }
    best
}

/// Takes the front at `at` out of its place, which is left empty.
fn take_front(fronts: &mut Vec<Option<(String, Record)>>, at: usize) -> (r: Option<
    (String, Record),
>)
    requires
        at < old(fronts)@.len(),
    ensures
        r == old(fronts)@[at as int],
        final(fronts)@ == old(fronts)@.update(at as int, None),
{
    fronts.push(None);
    let front = fronts.swap_remove(at);
    assert(fronts@ =~= old(fronts)@.update(at as int, None));
    front
}

/// Moves the pass at `at` on by one entry.
fn advance(iters: &mut Vec<SSTableIterator>, at: usize) -> (r: Result<
    Option<(String, Record)>,
    NaiveError,
>)
    requires
        at < old(iters)@.len(),
        old(iters)@[at as int].wf(),
    ensures
        final(iters)@.len() == old(iters)@.len(),
        forall|i: int|
            0 <= i < old(iters)@.len() && i != at ==> (#[trigger] final(iters)@[i]) == old(
                iters,
            )@[i],
        final(iters)@[at as int].wf(),
        old(iters)@[at as int].remaining().len() == 0 ==> {
            &&& r matches Ok(None)
            &&& final(iters)@[at as int].remaining().len() == 0
        },
        old(iters)@[at as int].remaining().len() > 0 ==> {
            &&& r matches Ok(Some(entry))
            &&& entry.0@ == old(iters)@[at as int].remaining()[0].key
            &&& entry.1@ == old(iters)@[at as int].remaining()[0].record
            &&& final(iters)@[at as int].remaining() == old(iters)@[at as int].remaining().drop_first()
        },
{
    iters[at].next()
}

impl SSTable {
    /// Writes a new run by merging a memtable with a list of runs, which
    /// stand youngest first behind the memtable. For each key the new run
    /// holds what the youngest of them has for it, tombstones included. A
    /// generation number that four bytes cannot hold is refused.
    #[verifier::rlimit(40)]
    pub fn create(
        file_path: String,
        memtable: &Memtable,
        sstables: &[SSTable],
        gen_no: usize,
        epoch_no: u64,
    ) -> (r: Result<SSTable, NaiveError>)
        requires
            memtable.inv(),
            forall|i: int| 0 <= i < sstables@.len() ==> (#[trigger] sstables@[i]).inv(),
        ensures
            gen_no > u32::MAX ==> (r matches Err(e) && e == NaiveError::InvalidData),
            gen_no <= u32::MAX ==> {
                &&& r matches Ok(table)
                &&& table.inv()
                &&& table.generation() == gen_no
                &&& table.epoch() == epoch_no
                &&& table.path() == file_path@
                &&& !table.deprecated()
                &&& chunked_by_threshold(table.groups())
                &&& forall|key: Seq<char>|
                    lookup(table.entries(), key) == crate::run::youngest(
                        merge_rows(*memtable, sstables@),
                        key,
                    )
            },
    {
        if gen_no > 0xffff_ffff {
            return Err(NaiveError::InvalidData);
        }
        let ghost rows = merge_rows(*memtable, sstables@);
        let count = sstables.len();
        proof {
            memtable.lemma_inv();
            assert forall|i: int| 0 <= i < rows.len() implies sorted(#[trigger] rows[i])
                && all_encodable(rows[i]) by {
                if i > 0 {
                    sstables@[i - 1].lemma_inv();
                }
            }
            assert(rows[0] == memtable.entries());
            assert forall|i: int| 0 <= i < count implies rows[i + 1] == (
            #[trigger] sstables@[i]).entries() by {}
        }
        // The front of each row: that of the memtable first.
        let mut fronts: Vec<Option<(String, Record)>> = Vec::new();
        let mut memtable_iter = memtable.iter();
        let first = match memtable_iter.next() {
            Some((key, record)) => Some((key.clone(), record.duplicate())),
            None => None,
        };
        fronts.push(first);
        let mut sstable_iters: Vec<SSTableIterator> = Vec::new();
        let mut n: usize = 0;
        while n < count
            invariant
                count == sstables@.len(),
                n <= count,
                rows.len() == count + 1,
                forall|i: int|
                    0 <= i < count ==> rows[i + 1] == (#[trigger] sstables@[i]).entries(),
                forall|i: int| 0 <= i < sstables@.len() ==> (#[trigger] sstables@[i]).inv(),
                fronts@.len() == n + 1,
                sstable_iters@.len() == n,
                forall|i: int|
                    0 <= i < n + 1 ==> front_matches(#[trigger] fronts@[i], rows[i], 0),
                forall|i: int|
                    0 <= i < n ==> (#[trigger] sstable_iters@[i]).wf() && sstable_iters@[i].remaining()
                        == behind_front(rows[i + 1], 0),
            decreases count - n,
        {
            let mut sstable_iter = sstables[n].pseudo_iter();
            let front = match sstable_iter.next() {
                Err(e) => {
                    return Err(e);
                },
                Ok(front) => front,
            };
            proof {
                let row = rows[n + 1];
                assert(row == sstables@[n as int].entries());
                if row.len() > 0 {
                    assert(row.drop_first() =~= behind_front(row, 0));
                }
                assert(front_matches(front, row, 0));
            }
            fronts.push(front);
            sstable_iters.push(sstable_iter);
            n += 1;
        }
        let mut writer = RunWriter::new(gen_no as u32);
        let mut last_key: Option<String> = None;
        let ghost mut cursors: Seq<int> = Seq::new(rows.len(), |i: int| 0int);
        proof {
            crate::merge::lemma_merge_start(rows);
            if rows[0].len() > 0 {
                assert(rows[0].drop_first() =~= behind_front(rows[0], 0));
            }
        }
        loop
            invariant
                count == sstables@.len(),
                rows.len() == count + 1,
                cursors.len() == rows.len(),
                forall|i: int| 0 <= i < rows.len() ==> all_encodable(#[trigger] rows[i]),
                fronts@.len() == count + 1,
                sstable_iters@.len() == count,
                forall|i: int|
                    0 <= i < count + 1 ==> front_matches(#[trigger] fronts@[i], rows[i], cursors[i]),
                memtable_iter.wf(),
                memtable_iter.remaining() == behind_front(rows[0], cursors[0]),
                forall|i: int|
                    0 <= i < count ==> (#[trigger] sstable_iters@[i]).wf() && sstable_iters@[i].remaining()
                        == behind_front(rows[i + 1], cursors[i + 1]),
                crate::merge::merge_inv(rows, cursors, writer.written()),
                writer.wf(),
                writer.generation() == gen_no,
                match last_key {
                    Some(key) => writer.written().len() > 0 && key@ == writer.written().last().key,
                    None => writer.written().len() == 0,
                },
            ensures
                forall|i: int| 0 <= i < count + 1 ==> (#[trigger] fronts@[i]) is None,
            decreases crate::merge::entries_left(rows, cursors),
        {
            let at = match least_front(&fronts) {
                None => {
                    break ;
                },
                Some(at) => at,
            };
            let ghost cursor = cursors[at as int];
            let ghost entry = rows[at as int][cursor];
            let ghost written = writer.written();
            let ghost fronts_before = fronts@;
            proof {
                assert(front_matches(fronts@[at as int], rows[at as int], cursor));
                assert(crate::merge::is_least_front(rows, cursors, at as int)) by {
                    assert forall|k: int|
                        0 <= k < rows.len() && cursors[k] < rows[k].len() implies crate::order::key_le(
                        rows[at as int][cursors[at as int]].key,
                        (#[trigger] rows[k])[cursors[k]].key,
                    ) by {
                        assert(front_matches(fronts@[k], rows[k], cursors[k]));
                    }
                    assert forall|k: int|
                        0 <= k < at && cursors[k] < rows[k].len() implies (#[trigger] rows[k])[cursors[k]].key
                        != rows[at as int][cursors[at as int]].key by {
                        assert(front_matches(fronts@[k], rows[k], cursors[k]));
                    }
                }
                crate::merge::lemma_merge_step(rows, cursors, written, at as int);
                crate::merge::lemma_entries_left_step(rows, cursors, at as int);
                assert(all_encodable(rows[at as int]));
            }
            // Take the front out of its place.
            let front = take_front(&mut fronts, at);
            let (key, record) = match front {
                Some(entry) => entry,
                None => {
                    return Err(NaiveError::Unknown);
                },
            };
            // With the same key, keep the record of the youngest row: what
            // older rows hold for the key is passed over.
            let is_new_key = match &last_key {
                None => true,
                Some(last) => match compare_keys(last.as_str(), key.as_str()) {
                    KeyOrder::Same => false,
                    _ => true,
                },
            };
            if is_new_key {
                last_key = Some(key.clone());
                match append_command_to_sstable(&mut writer, key, record) {
                    Err(e) => {
                        return Err(e);
                    },
                    Ok(()) => {},
                }
            }
            // Move the row on.
            let next = if at == 0 {
                match memtable_iter.next() {
                    Some((key, record)) => Some((key.clone(), record.duplicate())),
                    None => None,
                }
            } else {
                match advance(&mut sstable_iters, at - 1) {
                    Err(e) => {
                        return Err(e);
                    },
                    Ok(next) => next,
                }
            };
            fronts.set(at, next);
            proof {
                let row = rows[at as int];
                let moved = cursors.update(at as int, cursor + 1);
                if cursor + 1 < row.len() {
                    assert(behind_front(row, cursor)[0] == row[cursor + 1]);
                    assert(behind_front(row, cursor).drop_first() =~= behind_front(row, cursor + 1));
                } else {
                    assert(behind_front(row, cursor).len() == 0);
                }
                assert forall|i: int| 0 <= i < count + 1 implies front_matches(
                    #[trigger] fronts@[i],
                    rows[i],
                    moved[i],
                ) by {
                    if i != at {
                        assert(front_matches(fronts_before[i], rows[i], cursors[i]));
                    }
                }
                cursors = moved;
            }
        }
        proof {
            assert forall|i: int| 0 <= i < rows.len() implies #[trigger] cursors[i]
                == rows[i].len() by {
                assert(front_matches(fronts@[i], rows[i], cursors[i]));
            }
            crate::merge::lemma_merge_done(rows, cursors, writer.written());
        }
        let (index, file, layout) = writer.finish();
        let file_size = file.len();
        Ok(
            SSTable {
                gen_no,
                epoch_no,
                index,
                file,
                file_path,
                file_size,
                is_deprecated: false,
                layout,
            },
        )
    }
}

/// The views of an optional key.
spec fn option_key_view(key: Option<String>) -> Option<Seq<char>> {
    match key {
        Some(key) => Some(key@),
        None => None,
    }
}

/// Reads one chunk of a run as a group of entries, and returns the first
/// and the last key of the group. `prev` is the last key of the chunk
/// before.
fn parse_group(payload: &[u8], prev: &Option<String>) -> (r: Option<
    (String, String, Ghost<Seq<EntryView>>),
>)
    requires
        payload@.len() > 0,
    ensures
        match parse_messages(payload@, option_key_view(*prev)) {
            Some(group) => {
                &&& r matches Some(found)
                &&& found.2@ == group
                &&& group.len() > 0
                &&& found.0@ == group[0].key
                &&& found.1@ == group.last().key
                &&& payload@ == messages(group)
                &&& all_encodable(group)
                &&& sorted(group)
                &&& *prev matches Some(key) ==> key_lt(key@, group[0].key)
            },
            None => r is None,
        },
{
    let mut reader = ByteReader::new(payload);
    let mut first: Option<String> = None;
    let mut last: Option<String> = None;
    let ghost start = option_key_view(*prev);
    let ghost mut done = Seq::<EntryView>::empty();
    let ghost mut at: int = 0;
    proof {
        assert(payload@.skip(0) =~= payload@);
        assert(payload@.subrange(0, 0) =~= messages(done));
    }
    while reader.remaining_len() > 0
        invariant
            0 <= at <= payload@.len(),
            reader.remaining() == payload@.skip(at),
            payload@.subrange(0, at) == messages(done),
            all_encodable(done),
            sorted(done),
            start == option_key_view(*prev),
            done.len() > 0 ==> (start is Some ==> key_lt(start->Some_0, done[0].key)),
            option_key_view(first) == first_key(done),
            option_key_view(last) == last_key(None, done),
            parse_messages(payload@, start) == prepend(
                done,
                parse_messages(reader.remaining(), last_key(start, done)),
            ),
        decreases reader.remaining().len(),
    {
        let ghost rem = reader.remaining();
        let ghost before = last_key(start, done);
        proof {
            lemma_parse_messages_step(rem, before);
        }
        let (key, record) = match read_front_entry(&mut reader, &last, prev) {
            Some(entry) => entry,
            None => {
                return None;
            },
        };
        let ghost entry = EntryView { key: key@, record: record@ };
        proof {
            lemma_row_push(done, entry);
            lemma_consume(payload@, 0, at, message(entry_command(entry)), reader.remaining());
            lemma_prepend_step(
                done,
                entry,
                parse_messages(reader.remaining(), Some(entry.key)),
            );
            at = at + message(entry_command(entry)).len();
            done = done.push(entry);
        }
        if first.is_none() {
            first = Some(key.clone());
        }
        last = Some(key);
    }
    proof {
        lemma_prepend_end(done);
        crate::layout::lemma_parse_of_nothing(last_key(start, done));
        assert(reader.remaining() =~= Seq::<u8>::empty());
        assert(payload@.subrange(0, at) =~= payload@);
    }
    match (first, last) {
        (Some(first), Some(last)) => Some((first, last, Ghost(done))),
        _ => None,
    }
}

/// Reads the message at the reader as an entry that may follow the last
/// key that was read: `last`, or `prev` where there is no `last`.
fn read_front_entry(reader: &mut ByteReader, last: &Option<String>, prev: &Option<String>) -> (r:
    Option<(String, Record)>)
    requires
        old(reader).remaining().len() > 0,
    ensures
        final(reader).bytes == old(reader).bytes,
        ({
            let before = if *last is Some {
                option_key_view(*last)
            } else {
                option_key_view(*prev)
            };
            match front_entry(old(reader).remaining(), before) {
                Some(entry) => {
                    &&& r matches Some(read)
                    &&& read.0@ == entry.key
                    &&& read.1@ == entry.record
                    &&& final(reader).remaining() == crate::utils::after_chunk(
                        old(reader).remaining(),
                    )
                },
                None => r is None,
            }
        }),
{
    let command = match read_message(reader) {
        Ok(Some(command)) => command,
        _ => {
            return None;
        },
    };
    let record = match Record::from_command(&command) {
        Ok(record) => record,
        Err(_) => {
            return None;
        },
    };
    if !follows(last, prev, command.get_key()) {
        return None;
    }
    Some((command.get_key().to_owned(), record))
}

/// Whether `key` may follow: it must sort behind `last`, or behind `prev`
/// where there is no `last`.
fn follows(last: &Option<String>, prev: &Option<String>, key: &str) -> (r: bool)
    ensures
        r == ({
            let before = if *last is Some {
                option_key_view(*last)
            } else {
                option_key_view(*prev)
            };
            before is Some ==> key_lt(before->Some_0, key@)
        }),
{
    let before = match last {
        Some(_) => last,
        None => prev,
    };
    match before {
        Some(before) => {
            proof {
                crate::order::lemma_key_lt_strict_total(before@, key@);
            }
            match compare_keys(before.as_str(), key) {
                KeyOrder::Before => true,
                _ => false,
            }
        },
        None => true,
    }
}

/// Scans the body of a segment file and builds the index: for each chunk,
/// its first key and its offset. The scan reads each entry and refuses a
/// file that is no run.
fn build_sstable_index(file: &[u8]) -> (r: Result<
    (SSTableIndex, Ghost<Seq<Seq<EntryView>>>),
    NaiveError,
>)
    requires
        file@.len() >= N_BYTES_GENERATION_NUMBER,
    ensures
        match parse_body(file@.skip(N_BYTES_GENERATION_NUMBER as int), None) {
            Some(groups) => {
                &&& r matches Ok(found)
                &&& found.1@ == groups
                &&& found.0.describes(groups)
                &&& valid_layout(groups)
                &&& file@.skip(N_BYTES_GENERATION_NUMBER as int) == body(groups)
            },
            None => r matches Err(e) && e == NaiveError::InvalidData,
        },
{
    let mut index = SSTableIndex::new();
    let mut buffer: Vec<u8> = Vec::new();
    let mut last: Option<String> = None;
    let mut reader = ByteReader::new(file);
    reader.seek(N_BYTES_GENERATION_NUMBER);
    let ghost whole = file@.skip(N_BYTES_GENERATION_NUMBER as int);
    let ghost mut done = Seq::<Seq<EntryView>>::empty();
    proof {
        assert(file@.subrange(4, 4) =~= body(done));
        assert(done.flatten() =~= Seq::<EntryView>::empty());
    }
    while reader.remaining_len() > 0
        invariant
            reader.bytes@ == file@,
            N_BYTES_GENERATION_NUMBER <= reader.pos <= file@.len(),
            whole == file@.skip(N_BYTES_GENERATION_NUMBER as int),
            file@.subrange(N_BYTES_GENERATION_NUMBER as int, reader.pos as int) == body(done),
            groups_ok(done),
            option_key_view(last) == last_key(None, done.flatten()),
            index.keys@.len() == done.len(),
            index.offsets@.len() == done.len(),
            forall|i: int| 0 <= i < done.len() ==> (#[trigger] index.keys@[i])@ == done[i][0].key,
            forall|i: int|
                0 <= i < done.len() ==> (#[trigger] index.offsets@[i]) == chunk_offset(done, i),
            parse_body(whole, None) == prepend(
                done,
                parse_body(reader.remaining(), last_key(None, done.flatten())),
            ),
        decreases reader.remaining().len(),
    {
        let ghost rem = reader.remaining();
        let ghost at = reader.pos as int;
        let ghost before = last_key(None, done.flatten());
        proof {
            lemma_parse_body_step(rem, before);
        }
        let current_offset = reader.position();
        // Read the entire chunk into the buffer.
        let num_bytes = match read_chunk(&mut reader, &mut buffer) {
            Ok(num_bytes) => num_bytes,
            Err(_) => {
                return Err(NaiveError::InvalidData);
            },
        };
        if num_bytes == 0 {
            return Err(NaiveError::InvalidData);
        }
        let (first_key, last_key, Ghost(group)) = match parse_group(buffer.as_slice(), &last) {
            Some(found) => found,
            None => {
                return Err(NaiveError::InvalidData);
            },
        };
        proof {
            lemma_groups_push(done, group);
            lemma_consume(file@, 4, at, chunk(messages(group)), reader.remaining());
            lemma_prepend_step(done, group, parse_body(reader.remaining(), Some(group.last().key)));
        }
        let ghost keys_before = index.keys@;
        let ghost offsets_before = index.offsets@;
        index.keys.push(first_key);
        index.offsets.push(current_offset as u64);
        last = Some(last_key);
        proof {
            let grown = done.push(group);
            assert forall|i: int| 0 <= i < grown.len() implies (#[trigger] index.keys@[i])@
                == grown[i][0].key by {
                if i < done.len() {
                    assert(index.keys@[i] == keys_before[i]);
                }
            }
            assert forall|i: int| 0 <= i < grown.len() implies (#[trigger] index.offsets@[i])
                == chunk_offset(grown, i) by {
                if i < done.len() {
                    assert(index.offsets@[i] == offsets_before[i]);
                }
            }
            done = grown;
        }
    }
    proof {
        lemma_prepend_end(done);
        crate::layout::lemma_parse_of_nothing(last_key(None, done.flatten()));
        assert(reader.remaining() =~= Seq::<u8>::empty());
        assert(file@.subrange(4, reader.pos as int) =~= whole);
    }
    Ok((index, Ghost(done)))
}

impl SSTable {
    /// Recovers a run from the bytes of its segment file. A file that is
    /// no run is refused: one that is shorter than a generation number,
    /// or whose body is not a row of chunks of messages in strictly
    /// ascending order of their keys.
    pub fn open(file_path: String, file: Vec<u8>) -> (r: Result<SSTable, NaiveError>)
        ensures
            match parse_image(file@) {
                Some((gen_no, groups)) => {
                    &&& r matches Ok(table)
                    &&& table.inv()
                    &&& table.generation() == gen_no
                    &&& table.groups() == groups
                    &&& table.file_bytes() == file@
                    &&& table.epoch() == 0
                    &&& table.path() == file_path@
                    &&& !table.deprecated()
                },
                None => r matches Err(e) && e == NaiveError::InvalidData,
            },
    {
        let file_size = file.len();
        if file_size < N_BYTES_GENERATION_NUMBER {
            return Err(NaiveError::InvalidData);
        }
        // Read the generation number at the start of the file.
        let gen_no = crate::command::get_be32(file.as_slice(), 0);
        let (index, layout) = match build_sstable_index(file.as_slice()) {
            Ok(found) => found,
            Err(e) => {
                return Err(e);
            },
        };
        proof {
            let head = file@.subrange(0, 4);
            crate::command::lemma_be32_of_be32_value(head);
            assert(crate::command::be32_value(head) == crate::command::be32_value(file@));
            assert(file@ =~= head + file@.skip(4));
        }
        Ok(
            SSTable {
                gen_no: gen_no as usize,
                epoch_no: 0,
                index,
                file,
                file_path,
                file_size,
                is_deprecated: false,
                layout,
            },
        )
    }
}

/// The handle of one reader on one run. It keeps the epoch that the run
/// had when the handle was made: a reader that finds another epoch at the
/// place of the run makes a new handle.
pub struct SSTableView {
    /// The epoch of the run when the handle was made.
    epoch_no: u64,
}

impl SSTableView {
    /// The epoch of the run when the handle was made.
    pub closed spec fn epoch(&self) -> nat {
        self.epoch_no as nat
    }

    /// A handle on `sstable`.
    pub fn new(sstable: &SSTable) -> (r: Result<SSTableView, NaiveError>)
        ensures
            r matches Ok(view) && view.epoch() == sstable.epoch(),
    {
        Ok(SSTableView { epoch_no: sstable.epoch_no() })
    }

    /// The epoch of the run when the handle was made.
    pub fn epoch_no(&self) -> (epoch_no: u64)
        ensures
            epoch_no == self.epoch(),
    {
        self.epoch_no
    }

    /// The record that `sstable` holds for `key`.
    pub fn get(&mut self, sstable: &SSTable, key: &str) -> (r: Result<Option<Record>, NaiveError>)
        requires
            sstable.inv(),
        ensures
            final(self).epoch() == old(self).epoch(),
            r matches Ok(found) && option_record_view(found) == lookup(sstable.entries(), key@),
    {
        sstable.get(key)
    }
}

} // verus!
