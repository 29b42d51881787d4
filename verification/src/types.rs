//! Records, and the errors of the engine.

use vstd::prelude::*;
use vstd::string::*;
use crate::command::{Command, CommandType, CommandView};
use crate::order::key_bytes;

verus! {

/// The size that a tombstone is accounted with.
pub const TOMBSTONE_LEN: usize = 2;

/// What a table holds for a key: a value, or the mark that the key was
/// removed. The mark is a record of its own, since it has to hide what
/// older runs hold for the key.
#[derive(Clone, Debug, PartialEq, Eq)]
pub enum Record {
    Value(String),
    Deleted,
}

/// A record as a mathematical value.
pub enum RecordView {
    Value(Seq<char>),
    Deleted,
}

impl View for Record {
    type V = RecordView;

    open spec fn view(&self) -> RecordView {
        match self {
            Record::Value(value) => RecordView::Value(value@),
            Record::Deleted => RecordView::Deleted,
        }
    }
}

/// The accounted size of a record: the byte length of a value, and a
/// small constant for a tombstone.
pub open spec fn record_len(record: RecordView) -> nat {
    match record {
        RecordView::Value(value) => key_bytes(value).len(),
        RecordView::Deleted => TOMBSTONE_LEN as nat,
    }
}

/// The record that a command carries, if its kind and its value agree.
pub open spec fn command_record(command: CommandView) -> Option<RecordView> {
    match (command.command_type, command.value) {
        (CommandType::SET_VALUE, Some(value)) => Some(RecordView::Value(value)),
        (CommandType::DELETE, None) => Some(RecordView::Deleted),
        _ => None,
    }
}

/// What a reader is answered for a record: its value, or nothing for a
/// tombstone.
pub open spec fn record_value(record: RecordView) -> Option<Seq<char>> {
    match record {
        RecordView::Value(value) => Some(value),
        RecordView::Deleted => None,
    }
}

/// The views of an optional record.
pub open spec fn option_record_view(record: Option<Record>) -> Option<RecordView> {
    match record {
        Some(record) => Some(record@),
        None => None,
    }
}

/// The views of an optional string.
pub open spec fn option_string_view(value: Option<String>) -> Option<Seq<char>> {
    match value {
        Some(value) => Some(value@),
        None => None,
    }
}

impl Record {
    /// The accounted size of the record.
    pub fn len(&self) -> (n: usize)
        ensures
            n == record_len(self@),
    {
        match self {
            Record::Value(string) => string.as_str().as_bytes().len(),
            Record::Deleted => TOMBSTONE_LEN,
        }
    }

    /// The record of a command; a command whose kind and value disagree
    /// is refused as corrupt.
    pub fn from_command(command: &Command) -> (r: Result<Record, NaiveError>)
        ensures
            match command_record(command@) {
                Some(record) => r is Ok && r->Ok_0@ == record,
                None => r == Err::<Record, NaiveError>(NaiveError::InvalidData),
            },
    {
        match command.get_command_type() {
            CommandType::SET_VALUE => {
                if !command.has_value() {
                    return Err(NaiveError::InvalidData);
                }
                Ok(Record::Value(command.get_value()))
            },
            CommandType::DELETE => {
                if command.has_value() {
                    return Err(NaiveError::InvalidData);
                }
                Ok(Record::Deleted)
            },
        }
    }

    /// A copy of the record.
    pub fn duplicate(&self) -> (r: Record)
        ensures
            r@ == self@,
    {
        match self {
            Record::Value(value) => Record::Value(value.clone()),
            Record::Deleted => Record::Deleted,
        }
    }

    /// The answer to a reader: the value, or `None` for a tombstone.
    pub fn into_value(self) -> (r: Option<String>)
        ensures
            option_string_view(r) == record_value(self@),
    {
        match self {
            Record::Value(value) => Some(value),
            Record::Deleted => None,
        }
    }
}

/// Why a read from a byte source failed.
#[derive(Clone, Copy, Debug, PartialEq, Eq, Structural)]
pub enum IoErrorKind {
    /// The source ended inside a chunk.
    UnexpectedEof,
    /// Any other failure of the medium.
    Other,
}

/// The errors of the engine, and of the program that runs it.
#[derive(Clone, Copy, Debug, PartialEq, Eq, Structural)]
pub enum NaiveError {
    /// Something that has no kind of its own: the epochs are used up.
    Unknown,
    /// A read or a write failed.
    IoError(IoErrorKind),
    /// A buffered writer could not be flushed.
    IoIntoInnerError,
    /// A lock could not be taken for reading.
    RwLockReadError,
    /// A lock could not be taken for writing.
    RwLockWriteError,
    /// A mutex could not be taken.
    MutexLockError,
    /// A task could not be handed to a worker.
    ChannelSendError,
    /// Bytes that spell no record, or a record too large to be written.
    ProtobufError,
    /// A record, a file or a folder that breaks the rules of the engine.
    InvalidData,
    /// The logger could not be set.
    SetLoggerError,
}

} // verus!
