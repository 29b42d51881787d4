//! The memtable: the table that takes the writes, and its write-ahead log.
//!
//! A memtable holds its entries in ascending order of their keys, the
//! bytes of its log, and a size by which compaction is triggered. Every
//! write is logged before it is applied, and the table is at all times
//! what its log replays to.

use vstd::prelude::*;
use vstd::string::*;
use crate::command::{
    decode_command, encodable, lemma_encode_of_decode, put_bytes, Command, CommandType,
    CommandView,
};
use crate::order::key_bytes;
use crate::run::{
    ascending, key_views, lemma_insert_entry, lemma_lookup_at, lemma_update_entry, lookup, map_of,
    search, sorted, weight, EntryView,
};
use crate::types::{
    command_record, option_record_view, record_len, IoErrorKind, NaiveError, Record, RecordView,
};
use crate::utils::{
    after_chunk, after_length, chunk_is_whole, chunk_length, chunk_payload,
    lemma_message_read_back, message, read_message, write_message, ByteReader,
};

verus! {

/// The records of a table in ascending order of their keys.
pub struct RecordTable {
    keys: Vec<String>,
    records: Vec<Record>,
}

impl RecordTable {
    /// The entries of the table, in ascending order.
    pub closed spec fn entries(&self) -> Seq<EntryView> {
        Seq::new(
            self.keys@.len(),
            |i: int| EntryView { key: self.keys@[i]@, record: self.records@[i]@ },
        )
    }

    /// Every key has its record, and the keys ascend.
    pub closed spec fn wf(&self) -> bool {
        &&& self.keys@.len() == self.records@.len()
        &&& sorted(self.entries())
    }

    /// A table without entries.
    pub fn new() -> (table: RecordTable)
        ensures
            table.wf(),
            table.entries() == Seq::<EntryView>::empty(),
    {
        let table = RecordTable { keys: Vec::new(), records: Vec::new() };
        assert(table.entries() =~= Seq::<EntryView>::empty());
        table
    }

    /// The number of entries.
    pub fn len(&self) -> (n: usize)
        ensures
            n == self.entries().len(),
    {
        self.keys.len()
    }

    /// The record that the table holds for `key`.
    pub fn get(&self, key: &str) -> (r: Option<&Record>)
        requires
            self.wf(),
        ensures
            match r {
                Some(record) => Some(record@),
                None => None,
            } == lookup(self.entries(), key@),
    {
        proof {
            self.lemma_keys_ascend();
        }
        let (found, at) = search(&self.keys, key);
        if found {
            proof {
                lemma_lookup_at(self.entries(), at as int);
            }
            Some(&self.records[at])
        } else {
            proof {
                let entries = self.entries();
                assert forall|j: int| 0 <= j < entries.len() implies (#[trigger] entries[j]).key
                    != key@ by {
                    crate::order::lemma_key_lt_strict_total(entries[j].key, key@);
                    assert(entries[j].key == self.keys@[j]@);
                }
            }
            None
        }
    }

    /// A copy of the table.
    pub fn duplicate(&self) -> (copy: RecordTable)
        requires
            self.wf(),
        ensures
            copy.wf(),
            copy.entries() == self.entries(),
    {
        let keys = crate::run::copy_keys(&self.keys);
        let mut records: Vec<Record> = Vec::new();
        let mut i: usize = 0;
        while i < self.records.len()
            invariant
                i <= self.records@.len(),
                records@.len() == i,
                forall|j: int| 0 <= j < i ==> (#[trigger] records@[j])@ == self.records@[j]@,
            decreases self.records@.len() - i,
        {
            records.push(self.records[i].duplicate());
            i += 1;
        }
        let copy = RecordTable { keys, records };
        proof {
            assert(copy.keys@.len() == self.keys@.len()) by {
                assert(key_views(copy.keys@).len() == key_views(self.keys@).len());
            }
            assert forall|j: int| 0 <= j < copy.keys@.len() implies copy.keys@[j]@
                == self.keys@[j]@ by {
                assert(key_views(copy.keys@)[j] == key_views(self.keys@)[j]);
            }
            assert(copy.entries() =~= self.entries());
        }
        copy
    }

    /// The key at place `i`.
    pub fn key_at(&self, i: usize) -> (key: &String)
        requires
            i < self.entries().len(),
        ensures
            key@ == self.entries()[i as int].key,
    {
        &self.keys[i]
    }

    /// The record at place `i`.
    pub fn record_at(&self, i: usize) -> (record: &Record)
        requires
            self.wf(),
            i < self.entries().len(),
        ensures
            record@ == self.entries()[i as int].record,
    {
        &self.records[i]
    }

    proof fn lemma_keys_ascend(&self)
        requires
            self.wf(),
        ensures
            ascending(key_views(self.keys@)),
    {
        let entries = self.entries();
        let views = key_views(self.keys@);
        assert forall|i: int, j: int| 0 <= i < j < views.len() implies crate::order::key_lt(
            #[trigger] views[i],
            #[trigger] views[j],
        ) by {
            assert(entries[i].key == views[i]);
            assert(entries[j].key == views[j]);
        }
    }
}

/// A memtable as a mathematical value: what it holds for each key, and
/// the size that it is accounted with.
pub struct MemtableView {
    pub data: Map<Seq<char>, RecordView>,
    pub data_size: int,
}

/// By how much the accounted size changes when `record` is put under
/// `key`: on overwrite, by the difference of the records' sizes; on
/// insert, by the bytes of the key and the size of the record.
pub open spec fn size_delta(
    data: Map<Seq<char>, RecordView>,
    key: Seq<char>,
    record: RecordView,
) -> int {
    if data.contains_key(key) {
        record_len(record) - record_len(data[key])
    } else {
        (key_bytes(key).len() + record_len(record)) as int
    }
}

impl MemtableView {
    /// The memtable without entries.
    pub open spec fn empty() -> MemtableView {
        MemtableView { data: Map::empty(), data_size: 0 }
    }

    /// The memtable after `record` was put under `key`.
    pub open spec fn put(self, key: Seq<char>, record: RecordView) -> MemtableView {
        MemtableView {
            data: self.data.insert(key, record),
            data_size: self.data_size + size_delta(self.data, key, record),
        }
    }

    /// What the memtable holds for `key`.
    pub open spec fn get(self, key: Seq<char>) -> Option<RecordView> {
        self.data.get(key)
    }
}

/// What a log replays to, starting from `state`: the log must be a row of
/// messages and nothing else, and each command's kind and value must
/// agree. Only the end of the log behind a whole message ends the replay.
/// A log that stops inside a length or inside a message was cut short,
/// and a chunk of no bytes is no command: both are errors, since a write
/// appended behind such a tail would be lost at the next replay.
pub open spec fn replay(state: MemtableView, log: Seq<u8>) -> Result<MemtableView, NaiveError>
    decreases log.len(),
{
    if log.len() == 0 {
        Ok(state)
    } else if !chunk_is_whole(log) {
        Err(NaiveError::IoError(IoErrorKind::UnexpectedEof))
    } else if chunk_length(log) == 0 {
        Err(NaiveError::InvalidData)
    } else {
        match decode_command(chunk_payload(log)) {
            None => Err(NaiveError::ProtobufError),
            Some(command) => match command_record(command) {
                None => Err(NaiveError::InvalidData),
                Some(record) => replay(state.put(command.key, record), after_chunk(log)),
            },
        }
    }
}

/// The command that writes an entry.
pub open spec fn entry_command(entry: EntryView) -> CommandView {
    match entry.record {
        RecordView::Value(value) => CommandView {
            key: entry.key,
            command_type: CommandType::SET_VALUE,
            value: Some(value),
        },
        RecordView::Deleted => CommandView {
            key: entry.key,
            command_type: CommandType::DELETE,
            value: None,
        },
    }
}

/// Each entry can be written as a command.
pub open spec fn all_encodable(entries: Seq<EntryView>) -> bool {
    forall|i: int| 0 <= i < entries.len() ==> encodable(entry_command(#[trigger] entries[i]))
}

/// A log with one more message replays to the memtable with one more
/// write.
pub proof fn lemma_replay_append(state: MemtableView, log: Seq<u8>, command: CommandView)
    requires
        replay(state, log) is Ok,
        encodable(command),
        command_record(command) is Some,
    ensures
        replay(state, log + message(command)) == Ok::<MemtableView, NaiveError>(
            replay(state, log)->Ok_0.put(command.key, command_record(command)->Some_0),
        ),
    decreases log.len(),
{
    let more = log + message(command);
    let nothing = Seq::<u8>::empty();
    if log.len() == 0 {
        assert(more =~= message(command) + nothing);
        lemma_message_read_back(command, nothing);
        assert(replay(state.put(command.key, command_record(command)->Some_0), nothing) == Ok::<
            MemtableView,
            NaiveError,
        >(state.put(command.key, command_record(command)->Some_0)));
    } else {
        assert(log.len() >= 4);
        assert(more.len() >= 4);
        assert(crate::command::be32_value(more) == crate::command::be32_value(log));
        assert(after_length(more) =~= after_length(log) + message(command));
        assert(chunk_payload(more) =~= chunk_payload(log));
        assert(after_chunk(more) =~= after_chunk(log) + message(command));
        let first = decode_command(chunk_payload(log))->Some_0;
        let record = command_record(first)->Some_0;
        lemma_replay_append(state.put(first.key, record), after_chunk(log), command);
    }
}

/// Applies a command to a table and to a size that is accounted for it.
/// A command whose kind and value disagree is refused, and nothing
/// changes. The size may start anywhere: all that is asked of it is that
/// the size after the command is one that the machine can hold. A size
/// that was the sum of the entries' sizes before is so after.
pub fn apply_command_to_data(
    command: &Command,
    data: &mut RecordTable,
    data_size: &mut usize,
) -> (r: Result<(), NaiveError>)
    requires
        old(data).wf(),
        command_record(command@) matches Some(record) ==> 0 <= *old(data_size) + size_delta(
            map_of(old(data).entries()),
            command@.key,
            record,
        ) <= usize::MAX,
    ensures
        final(data).wf(),
        *old(data_size) == weight(old(data).entries()) ==> *final(data_size) == weight(
            final(data).entries(),
        ),
        match command_record(command@) {
            Some(record) => {
                &&& r is Ok
                &&& map_of(final(data).entries()) == map_of(old(data).entries()).insert(
                    command@.key,
                    record,
                )
                &&& *final(data_size) == *old(data_size) + size_delta(
                    map_of(old(data).entries()),
                    command@.key,
                    record,
                )
                &&& all_encodable(old(data).entries()) && encodable(command@) ==> all_encodable(
                    final(data).entries(),
                )
            },
            None => {
                &&& r == Err::<(), NaiveError>(NaiveError::InvalidData)
                &&& final(data).entries() == old(data).entries()
                &&& *final(data_size) == *old(data_size)
            },
        },
{
    let record = match Record::from_command(command) {
        Ok(record) => record,
        Err(e) => {
            return Err(e);
        },
    };
    let ghost before = data.entries();
    let ghost entry = EntryView { key: command@.key, record: record@ };
    proof {
        data.lemma_keys_ascend();
    }
    let (found, at) = search(&data.keys, command.get_key());
    if found {
        proof {
            lemma_update_entry(before, at as int, entry);
        }
        // Replace the old record with the new one.
        let old_len = data.records[at].len();
        let new_len = record.len();
        if new_len >= old_len {
            *data_size = *data_size + (new_len - old_len);
        } else {
            *data_size = *data_size - (old_len - new_len);
        }
        data.records.set(at, record);
        proof {
            assert(data.entries() =~= before.update(at as int, entry));
            assert(all_encodable(before) && encodable(command@) ==> all_encodable(data.entries()))
                by {
                if all_encodable(before) && encodable(command@) {
                    assert forall|i: int| 0 <= i < data.entries().len() implies encodable(
                        entry_command(#[trigger] data.entries()[i]),
                    ) by {
                        if i != at {
                            assert(data.entries()[i] == before[i]);
                        }
                    }
                }
            }
        }
    } else {
        proof {
            assert forall|j: int| 0 <= j < at implies crate::order::key_lt(
                (#[trigger] before[j]).key,
                entry.key,
            ) by {
                assert(before[j].key == data.keys@[j]@);
            }
            assert forall|j: int| at <= j < before.len() implies crate::order::key_lt(
                entry.key,
                (#[trigger] before[j]).key,
            ) by {
                assert(before[j].key == data.keys@[j]@);
            }
            lemma_insert_entry(before, at as int, entry);
        }
        let key = command.get_key().to_owned();
        *data_size = *data_size + key.as_str().as_bytes().len() + record.len();
        data.keys.insert(at, key);
        data.records.insert(at, record);
        proof {
            assert(data.entries() =~= before.insert(at as int, entry));
            assert(all_encodable(before) && encodable(command@) ==> all_encodable(data.entries()))
                by {
                if all_encodable(before) && encodable(command@) {
                    assert forall|i: int| 0 <= i < data.entries().len() implies encodable(
                        entry_command(#[trigger] data.entries()[i]),
                    ) by {
                        if i < at {
                            assert(data.entries()[i] == before[i]);
                        } else if i > at {
                            assert(data.entries()[i] == before[i - 1]);
                        }
                    }
                }
            }
        }
    }
    Ok(())
}

/// The accounted size of an entry is no more than the bytes that its
/// command is written with.
pub proof fn lemma_weight_within_message(command: CommandView)
    requires
        command_record(command) is Some,
    ensures
        key_bytes(command.key).len() + record_len(command_record(command)->Some_0)
            <= crate::command::encoded_len(command),
{
}

/// A write takes from the sum of the entries' sizes no more than the sum
/// holds, and adds to it no more than the bytes of the key and the size
/// of the record.
pub proof fn lemma_delta_bounds(entries: Seq<EntryView>, key: Seq<char>, record: RecordView)
    requires
        sorted(entries),
    ensures
        0 <= weight(entries) + size_delta(map_of(entries), key, record),
        size_delta(map_of(entries), key, record) <= key_bytes(key).len() + record_len(record),
{
    if crate::run::holds(entries, key) {
        let i = choose|i: int| 0 <= i < entries.len() && (#[trigger] entries[i]).key == key;
        lemma_update_entry(entries, i, entries[i]);
    }
}

/// The command that sets `key` to `value`.
pub open spec fn set_command(key: Seq<char>, value: Seq<char>) -> CommandView {
    CommandView { key: key, command_type: CommandType::SET_VALUE, value: Some(value) }
}

/// The command that removes `key`.
pub open spec fn remove_command(key: Seq<char>) -> CommandView {
    CommandView { key: key, command_type: CommandType::DELETE, value: None }
}

/// A write that is ready to be logged: a command whose kind and value
/// agree, and the bytes of its message. Who keeps the log in a file
/// appends the bytes to the file and then hands the write to the memtable,
/// so that no write is applied that is not logged.
pub struct LoggedWrite {
    command: Command,
    entry: Vec<u8>,
}

impl LoggedWrite {
    /// The command of the write.
    pub closed spec fn command(&self) -> CommandView {
        self.command@
    }

    /// The bytes that the write adds to the log.
    pub closed spec fn entry_bytes(&self) -> Seq<u8> {
        self.entry@
    }

    /// The command can be written, its kind and value agree, and the
    /// bytes are those of its message.
    pub closed spec fn inv(&self) -> bool {
        &&& encodable(self.command@)
        &&& command_record(self.command@) is Some
        &&& self.entry@ == message(self.command@)
    }

    /// What the invariant says, for those who cannot see inside.
    pub proof fn lemma_inv(&self)
        requires
            self.inv(),
        ensures
            encodable(self.command()),
            command_record(self.command()) is Some,
            self.entry_bytes() == message(self.command()),
    {
    }

    /// Makes a command ready to be logged. A command whose kind and value
    /// disagree is refused as invalid, and one of too many bytes as not
    /// writable.
    pub fn new(command: Command) -> (r: Result<LoggedWrite, NaiveError>)
        ensures
            command_record(command@) is None ==> (r matches Err(e) && e
                == NaiveError::InvalidData),
            command_record(command@) is Some && !encodable(command@) ==> (r matches Err(e) && e
                == NaiveError::ProtobufError),
            command_record(command@) is Some && encodable(command@) ==> (r matches Ok(write)
                && write.inv() && write.command() == command@),
    {
        match Record::from_command(&command) {
            Ok(_) => {},
            Err(e) => {
                return Err(e);
            },
        }
        let mut entry: Vec<u8> = Vec::new();
        match write_message(&command, &mut entry) {
            Ok(()) => {},
            Err(e) => {
                return Err(e);
            },
        }
        assert(entry@ =~= message(command@));
        Ok(LoggedWrite { command, entry })
    }

    /// Makes the write that sets `key` to `value` ready to be logged. A
    /// pair that is too large to be logged is refused.
    pub fn set(key: String, value: String) -> (r: Result<LoggedWrite, NaiveError>)
        ensures
            encodable(set_command(key@, value@)) ==> (r matches Ok(write) && write.inv()
                && write.command() == set_command(key@, value@)),
            !encodable(set_command(key@, value@)) ==> (r matches Err(e) && e
                == NaiveError::ProtobufError),
    {
        let mut command = Command::new();
        command.set_key(key);
        command.set_command_type(CommandType::SET_VALUE);
        command.set_value(value);
        LoggedWrite::new(command)
    }

    /// Makes the write that removes `key` ready to be logged. A key that
    /// is too large to be logged is refused.
    pub fn remove(key: String) -> (r: Result<LoggedWrite, NaiveError>)
        ensures
            encodable(remove_command(key@)) ==> (r matches Ok(write) && write.inv()
                && write.command() == remove_command(key@)),
            !encodable(remove_command(key@)) ==> (r matches Err(e) && e
                == NaiveError::ProtobufError),
    {
        let mut command = Command::new();
        command.set_key(key);
        command.set_command_type(CommandType::DELETE);
        LoggedWrite::new(command)
    }

    /// The bytes that the write adds to the log.
    pub fn entry(&self) -> (entry: &Vec<u8>)
        ensures
            entry@ == self.entry_bytes(),
    {
        &self.entry
    }
}

/// The table that takes the writes. It holds the bytes of its write-ahead
/// log; whoever keeps the log in a file appends to the file what a write
/// appends here.
pub struct Memtable {
    /// The in-memory data.
    data: RecordTable,
    /// The size that the data is accounted with, by which compaction is
    /// triggered.
    data_size: usize,
    /// The path of the write-ahead log.
    log_path: String,
    /// The bytes of the write-ahead log.
    log_writer: Vec<u8>,
    /// Whether the log is to be removed once the memtable is dropped.
    is_deprecated: bool,
}

impl View for Memtable {
    type V = MemtableView;

    closed spec fn view(&self) -> MemtableView {
        MemtableView { data: map_of(self.data.entries()), data_size: self.data_size as int }
    }
}

impl Memtable {
    /// The entries in ascending order of their keys.
    pub closed spec fn entries(&self) -> Seq<EntryView> {
        self.data.entries()
    }

    /// The bytes of the write-ahead log.
    pub closed spec fn log_bytes(&self) -> Seq<u8> {
        self.log_writer@
    }

    /// The path of the write-ahead log.
    pub closed spec fn path(&self) -> Seq<char> {
        self.log_path@
    }

    /// Whether the log is to be removed once the memtable is dropped.
    pub closed spec fn deprecated(&self) -> bool {
        self.is_deprecated
    }

    /// The memtable is what its log replays to, its entries ascend, and
    /// its size is the sum of theirs.
    pub closed spec fn inv(&self) -> bool {
        &&& self.data.wf()
        &&& self.data_size == weight(self.data.entries())
        &&& self.data_size <= self.log_writer@.len()
        &&& all_encodable(self.data.entries())
        &&& replay(MemtableView::empty(), self.log_writer@) == Ok::<MemtableView, NaiveError>(
            self@,
        )
    }

    /// What the invariant says, for those who cannot see inside: the
    /// memtable is what its log replays to.
    pub proof fn lemma_inv(&self)
        requires
            self.inv(),
        ensures
            sorted(self.entries()),
            all_encodable(self.entries()),
            self@.data == map_of(self.entries()),
            self@.data_size == weight(self.entries()),
            replay(MemtableView::empty(), self.log_bytes()) == Ok::<MemtableView, NaiveError>(
                self@,
            ),
            forall|key: Seq<char>| self@.get(key) == lookup(self.entries(), key),
    {
        assert forall|key: Seq<char>| self@.get(key) == lookup(self.entries(), key) by {}
    }

    /// Replays a write-ahead log: `log` holds the bytes of the log at
    /// `log_path`, none if there is no log yet. The log must be a row of
    /// messages and nothing else: one that stops inside a length or
    /// inside a message is refused as cut short (`UnexpectedEof`), one
    /// with a chunk of no bytes or with a command whose kind and value
    /// disagree as `InvalidData`, and one with a chunk that is no command
    /// as `ProtobufError`. Nothing is dropped from a log in silence.
    #[verifier::rlimit(40)]
    pub fn open(log_path: String, log: Vec<u8>) -> (r: Result<Memtable, NaiveError>)
        ensures
            match replay(MemtableView::empty(), log@) {
                Ok(view) => {
                    &&& r matches Ok(memtable)
                    &&& memtable.inv()
                    &&& memtable@ == view
                    &&& memtable.log_bytes() == log@
                    &&& memtable.path() == log_path@
                    &&& !memtable.deprecated()
                },
                Err(e) => r matches Err(f) && f == e,
            },
    {
        let mut data = RecordTable::new();
        let mut data_size: usize = 0;
        let total = log.len();
        let mut reader = ByteReader::new(log.as_slice());
        let ghost mut state = MemtableView::empty();
        assert(state.data =~= map_of(data.entries()));
        // Redo the commands of the log to recover the data.
        while reader.remaining_len() > 0
            invariant
                reader.bytes@ == log@,
                total == log@.len(),
                data.wf(),
                data_size == weight(data.entries()),
                all_encodable(data.entries()),
                state == (MemtableView {
                    data: map_of(data.entries()),
                    data_size: data_size as int,
                }),
                replay(state, reader.remaining()) == replay(MemtableView::empty(), log@),
                data_size + reader.remaining().len() <= log@.len(),
            decreases reader.remaining().len(),
        {
            let ghost rem = reader.remaining();
            let command = match read_message(&mut reader) {
                Err(e) => {
                    return Err(e);
                },
                Ok(None) => {
                    return Err(NaiveError::InvalidData);
                },
                Ok(Some(command)) => command,
            };
            proof {
                lemma_encode_of_decode(chunk_payload(rem));
                if command_record(command@) is Some {
                    lemma_weight_within_message(command@);
                    lemma_delta_bounds(
                        data.entries(),
                        command@.key,
                        command_record(command@)->Some_0,
                    );
                }
            }
            match apply_command_to_data(&command, &mut data, &mut data_size) {
                Err(e) => {
                    return Err(e);
                },
                Ok(()) => {},
            }
            proof {
                state = state.put(command@.key, command_record(command@)->Some_0);
            }
        }
        Ok(Memtable { data, data_size, log_path, log_writer: log, is_deprecated: false })
    }

    /// The record that the memtable holds for `key`: a tombstone is
    /// returned as it is.
    pub fn get(&self, key: &str) -> (r: Result<Option<Record>, NaiveError>)
        requires
            self.inv(),
        ensures
            r matches Ok(found) && option_record_view(found) == self@.get(key@),
    {
        match self.data.get(key) {
            Some(record) => Ok(Some(record.duplicate())),
            None => Ok(None),
        }
    }

    /// Applies a write that the caller has logged: the bytes of its message
    /// go behind the log, and its record into the table.
    pub fn commit(&mut self, write: LoggedWrite)
        requires
            old(self).inv(),
            write.inv(),
        ensures
            final(self).inv(),
            final(self).path() == old(self).path(),
            final(self).deprecated() == old(self).deprecated(),
            final(self)@ == old(self)@.put(
                write.command().key,
                command_record(write.command())->Some_0,
            ),
            final(self).log_bytes() == old(self).log_bytes() + write.entry_bytes(),
    {
        let LoggedWrite { command, entry } = write;
        // Write the log before updating the in-memory data.
        put_bytes(&mut self.log_writer, entry.as_slice());
        let logged = self.log_writer.len();
        proof {
            lemma_replay_append(MemtableView::empty(), old(self).log_bytes(), command@);
            lemma_weight_within_message(command@);
            lemma_message_read_back(command@, Seq::<u8>::empty());
            lemma_delta_bounds(
                self.data.entries(),
                command@.key,
                command_record(command@)->Some_0,
            );
        }
        let _ = apply_command_to_data(&command, &mut self.data, &mut self.data_size);
    }

    /// Sets `key` to `value`: the write is logged, then applied.
    pub fn set(&mut self, key: String, value: String) -> (r: Result<(), NaiveError>)
        requires
            old(self).inv(),
        ensures
            final(self).inv(),
            final(self).path() == old(self).path(),
            final(self).deprecated() == old(self).deprecated(),
            ({
                let command = CommandView {
                    key: key@,
                    command_type: CommandType::SET_VALUE,
                    value: Some(value@),
                };
                if encodable(command) {
                    &&& r is Ok
                    &&& final(self)@ == old(self)@.put(key@, RecordView::Value(value@))
                    &&& final(self).log_bytes() == old(self).log_bytes() + message(command)
                } else {
                    &&& r == Err::<(), NaiveError>(NaiveError::ProtobufError)
                    &&& final(self)@ == old(self)@
                    &&& final(self).entries() == old(self).entries()
                    &&& final(self).log_bytes() == old(self).log_bytes()
                }
            }),
    {
        match LoggedWrite::set(key, value) {
            Ok(write) => {
                proof {
                    write.lemma_inv();
                }
                self.commit(write);
                Ok(())
            },
            Err(e) => Err(e),
        }
    }

    /// Removes `key`: a tombstone is logged, then put into the table,
    /// whether or not the table held the key.
    pub fn remove(&mut self, key: String) -> (r: Result<(), NaiveError>)
        requires
            old(self).inv(),
        ensures
            final(self).inv(),
            final(self).path() == old(self).path(),
            final(self).deprecated() == old(self).deprecated(),
            ({
                let command = CommandView {
                    key: key@,
                    command_type: CommandType::DELETE,
                    value: None,
                };
                if encodable(command) {
                    &&& r is Ok
                    &&& final(self)@ == old(self)@.put(key@, RecordView::Deleted)
                    &&& final(self).log_bytes() == old(self).log_bytes() + message(command)
                } else {
                    &&& r == Err::<(), NaiveError>(NaiveError::ProtobufError)
                    &&& final(self)@ == old(self)@
                    &&& final(self).entries() == old(self).entries()
                    &&& final(self).log_bytes() == old(self).log_bytes()
                }
            }),
    {
        match LoggedWrite::remove(key) {
            Ok(write) => {
                proof {
                    write.lemma_inv();
                }
                self.commit(write);
                Ok(())
            },
            Err(e) => Err(e),
        }
    }

    /// A copy of the memtable: its entries, its size, its path and the
    /// bytes of its log.
    pub fn duplicate(&self) -> (copy: Memtable)
        requires
            self.inv(),
        ensures
            copy.inv(),
            copy@ == self@,
            copy.entries() == self.entries(),
            copy.log_bytes() == self.log_bytes(),
            copy.path() == self.path(),
            copy.deprecated() == self.deprecated(),
    {
        let data = self.data.duplicate();
        let mut log_writer: Vec<u8> = Vec::new();
        put_bytes(&mut log_writer, self.log_writer.as_slice());
        assert(log_writer@ =~= self.log_writer@);
        Memtable {
            data,
            data_size: self.data_size,
            log_path: self.log_path.clone(),
            log_writer,
            is_deprecated: self.is_deprecated,
        }
    }

    /// A pass over the entries in ascending order of their keys.
    pub fn iter(&self) -> (iter: MemtableIter<'_>)
        requires
            self.inv(),
        ensures
            iter.wf(),
            iter.remaining() == self.entries(),
    {
        let iter = MemtableIter { table: &self.data, pos: 0 };
        assert(iter.remaining() =~= self.entries());
        iter
    }

    /// The number of entries.
    pub fn len(&self) -> (n: usize)
        ensures
            n == self.entries().len(),
    {
        self.data.len()
    }

    /// The size that the data is accounted with.
    pub fn data_size(&self) -> (size: usize)
        ensures
            size == self@.data_size,
    {
        self.data_size
    }

    /// The path of the write-ahead log.
    pub fn log_path(&self) -> (path: &String)
        ensures
            path@ == self.path(),
    {
        &self.log_path
    }

    /// The bytes of the write-ahead log.
    pub fn log(&self) -> (log: &Vec<u8>)
        ensures
            log@ == self.log_bytes(),
    {
        &self.log_writer
    }

    /// Whether the log is to be removed once the memtable is dropped.
    pub fn is_deprecated(&self) -> (deprecated: bool)
        ensures
            deprecated == self.deprecated(),
    {
        self.is_deprecated
    }

    /// Marks the log for removal: called once the memtable has been
    /// merged into a sorted run. The mark is never taken back.
    pub fn deprecate(&mut self) -> (r: Result<(), NaiveError>)
        ensures
            r is Ok,
            final(self).deprecated(),
            final(self)@ == old(self)@,
            final(self).entries() == old(self).entries(),
            final(self).log_bytes() == old(self).log_bytes(),
            final(self).path() == old(self).path(),
            old(self).inv() ==> final(self).inv(),
    {
        self.is_deprecated = true;
        Ok(())
    }
}

/// A pass over the entries of a memtable.
pub struct MemtableIter<'a> {
    table: &'a RecordTable,
    pos: usize,
}

impl<'a> MemtableIter<'a> {
    /// The entries that are still to come.
    pub closed spec fn remaining(&self) -> Seq<EntryView> {
        self.table.entries().skip(self.pos as int)
    }

    /// The pass is over a sound table and has not gone beyond its end.
    pub closed spec fn wf(&self) -> bool {
        &&& self.table.wf()
        &&& self.pos <= self.table.entries().len()
    }

    /// The next entry, or `None` when the pass is over.
    pub fn next(&mut self) -> (r: Option<(&'a String, &'a Record)>)
        requires
            old(self).wf(),
        ensures
            final(self).wf(),
            old(self).remaining().len() == 0 ==> r is None && final(self).remaining()
                == old(self).remaining(),
            old(self).remaining().len() > 0 ==> {
                &&& r matches Some(entry)
                &&& entry.0@ == old(self).remaining()[0].key
                &&& entry.1@ == old(self).remaining()[0].record
                &&& final(self).remaining() == old(self).remaining().drop_first()
            },
    {
        if self.pos < self.table.len() {
            let key = self.table.key_at(self.pos);
            let record = self.table.record_at(self.pos);
            self.pos = self.pos + 1;
            assert(self.remaining() =~= old(self).remaining().drop_first());
            Some((key, record))
        } else {
            None
        }
    }
}

/// Putting a record over one of the same size leaves the accounted size
/// as it was; over one of another size, the size changes by the
/// difference.
pub proof fn lemma_overwrite_delta(view: MemtableView, key: Seq<char>, record: RecordView)
    requires
        view.data.contains_key(key),
    ensures
        view.put(key, record).data_size == view.data_size + record_len(record) - record_len(
            view.data[key],
        ),
        record_len(record) == record_len(view.data[key]) ==> view.put(key, record).data_size
            == view.data_size,
{
}

/// The memtable after a row of writes, one after the other.
pub open spec fn put_all(view: MemtableView, writes: Seq<EntryView>) -> MemtableView
    decreases writes.len(),
{
    if writes.len() == 0 {
        view
    } else {
        put_all(view.put(writes[0].key, writes[0].record), writes.drop_first())
    }
}

/// The sum of the changes that a row of writes makes to the accounted
/// size, each taken at the time of its write.
pub open spec fn sum_of_deltas(view: MemtableView, writes: Seq<EntryView>) -> int
    decreases writes.len(),
{
    if writes.len() == 0 {
        0
    } else {
        size_delta(view.data, writes[0].key, writes[0].record) + sum_of_deltas(
            view.put(writes[0].key, writes[0].record),
            writes.drop_first(),
        )
    }
}

/// Over a row of writes the accounted size grows by the sum of the
/// changes of the writes.
pub proof fn lemma_size_of_writes(view: MemtableView, writes: Seq<EntryView>)
    ensures
        put_all(view, writes).data_size == view.data_size + sum_of_deltas(view, writes),
    decreases writes.len(),
{
    if writes.len() > 0 {
        lemma_size_of_writes(view.put(writes[0].key, writes[0].record), writes.drop_first());
    }
}

/// The log of a row of writes: their messages, one after the other.
pub open spec fn log_of(writes: Seq<EntryView>) -> Seq<u8>
    decreases writes.len(),
{
    if writes.len() == 0 {
        Seq::<u8>::empty()
    } else {
        message(entry_command(writes[0])) + log_of(writes.drop_first())
    }
}

/// The log of a row of writes replays to the memtable after the writes.
#[verifier::rlimit(40)]
pub proof fn lemma_replay_of_log(view: MemtableView, writes: Seq<EntryView>)
    requires
        all_encodable(writes),
    ensures
        replay(view, log_of(writes)) == Ok::<MemtableView, NaiveError>(put_all(view, writes)),
    decreases writes.len(),
{
    if writes.len() > 0 {
        let write = writes[0];
        let rest = writes.drop_first();
        lemma_message_read_back(entry_command(write), log_of(rest));
        assert(command_record(entry_command(write)) == Some(write.record));
        assert forall|i: int| 0 <= i < rest.len() implies encodable(
            entry_command(#[trigger] rest[i]),
        ) by {
            assert(rest[i] == writes[i + 1]);
        }
        lemma_replay_of_log(view.put(write.key, write.record), rest);
    }
}

} // verus!
