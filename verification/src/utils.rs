//! Chunks: the framing of every file of the engine.
//!
//! A chunk is a length as four big-endian bytes and then that many bytes.
//! A message is a chunk that holds one command. A write-ahead log is a row
//! of messages; the body of a sorted run is a row of chunks, each of which
//! holds a row of messages.

use vstd::prelude::*;
use vstd::slice::*;
use crate::command::{
    be32, be32_value, decode_command, encodable, encode_command, get_be32,
    lemma_be32_value_of_be32, lemma_decode_of_encode, put_be32, put_bytes, Command,
};
use crate::types::{IoErrorKind, NaiveError};

verus! {

/// The number of bytes that a chunk's length is written with.
pub const N_BYTES_CHUNK_LENGTH: usize = 4;

/// A source of bytes that is read front to back and can be moved to any
/// offset: a byte image and a position in it.
pub struct ByteReader<'a> {
    pub bytes: &'a [u8],
    pub pos: usize,
}

impl<'a> ByteReader<'a> {
    /// The bytes that are still to be read: none where the position lies
    /// behind the end.
    pub open spec fn remaining(&self) -> Seq<u8> {
        if self.pos <= self.bytes@.len() {
            self.bytes@.skip(self.pos as int)
        } else {
            Seq::<u8>::empty()
        }
    }

    /// A reader at the start of `bytes`.
    pub fn new(bytes: &'a [u8]) -> (reader: ByteReader<'a>)
        ensures
            reader.bytes@ == bytes@,
            reader.pos == 0,
            reader.remaining() == bytes@,
    {
        ByteReader { bytes, pos: 0 }
    }

    /// Moves the reader to `offset`, counted from the start.
    pub fn seek(&mut self, offset: usize)
        ensures
            final(self).bytes == old(self).bytes,
            final(self).pos == offset,
    {
        self.pos = offset;
    }

    /// The offset of the next byte, counted from the start.
    pub fn position(&self) -> (pos: usize)
        ensures
            pos == self.pos,
    {
        self.pos
    }

    /// The number of bytes that are still to be read.
    pub fn remaining_len(&self) -> (n: usize)
        ensures
            n == self.remaining().len(),
            n > 0 ==> self.pos + n == self.bytes@.len(),
            self.bytes@.len() <= usize::MAX,
    {
        let len = self.bytes.len();
        if self.pos <= len {
            len - self.pos
        } else {
            0
        }
    }
}

/// The length that a chunk at the front of `rem` announces: 0 where fewer
/// than four bytes are left.
pub open spec fn chunk_length(rem: Seq<u8>) -> nat {
    if rem.len() < N_BYTES_CHUNK_LENGTH {
        0
    } else {
        be32_value(rem) as nat
    }
}

/// What is left of `rem` behind a chunk's length.
pub open spec fn after_length(rem: Seq<u8>) -> Seq<u8> {
    if rem.len() < N_BYTES_CHUNK_LENGTH {
        Seq::<u8>::empty()
    } else {
        rem.skip(N_BYTES_CHUNK_LENGTH as int)
    }
}

/// All the bytes that the chunk at the front of `rem` announces are there.
pub open spec fn chunk_is_whole(rem: Seq<u8>) -> bool {
    chunk_length(rem) <= after_length(rem).len()
}

/// The bytes that the chunk at the front of `rem` holds.
pub open spec fn chunk_payload(rem: Seq<u8>) -> Seq<u8> {
    after_length(rem).take(chunk_length(rem) as int)
}

/// What is left of `rem` behind the chunk at its front.
pub open spec fn after_chunk(rem: Seq<u8>) -> Seq<u8> {
    after_length(rem).skip(chunk_length(rem) as int)
}

/// A chunk: the length of `payload`, then `payload`.
pub open spec fn chunk(payload: Seq<u8>) -> Seq<u8> {
    be32(payload.len() as u32) + payload
}

/// A chunk that was written is read back whole, whatever follows it.
pub proof fn lemma_chunk_read_back(payload: Seq<u8>, rest: Seq<u8>)
    requires
        payload.len() <= u32::MAX,
    ensures
        chunk(payload).len() == N_BYTES_CHUNK_LENGTH + payload.len(),
        chunk_length(chunk(payload) + rest) == payload.len(),
        chunk_is_whole(chunk(payload) + rest),
        chunk_payload(chunk(payload) + rest) == payload,
        after_chunk(chunk(payload) + rest) == rest,
{
    let rem = chunk(payload) + rest;
    lemma_be32_value_of_be32(payload.len() as u32);
    assert(be32_value(rem) == be32_value(be32(payload.len() as u32)));
    assert(after_length(rem) =~= payload + rest);
    assert(chunk_payload(rem) =~= payload);
    assert(after_chunk(rem) =~= rest);
}

/// Reads the length of the chunk at the reader: 0 where fewer than four
/// bytes are left, which are then passed over.
pub fn read_chunk_length(reader: &mut ByteReader) -> (r: Result<usize, NaiveError>)
    ensures
        r == Ok::<usize, NaiveError>(chunk_length(old(reader).remaining()) as usize),
        chunk_length(old(reader).remaining()) <= u32::MAX,
        final(reader).bytes == old(reader).bytes,
        final(reader).remaining() == after_length(old(reader).remaining()),
        old(reader).remaining().len() >= N_BYTES_CHUNK_LENGTH ==> final(reader).pos
            == old(reader).pos + N_BYTES_CHUNK_LENGTH,
{
    let left = reader.remaining_len();
    if left < N_BYTES_CHUNK_LENGTH {
        if reader.pos <= reader.bytes.len() {
            reader.pos = reader.bytes.len();
        }
        assert(reader.remaining() =~= Seq::<u8>::empty());
        return Ok(0usize);
    }
    let length = get_be32(reader.bytes, reader.pos);
    proof {
        let rem = old(reader).remaining();
        assert(reader.bytes@.subrange(reader.pos as int, reader.pos + 4) =~= rem.subrange(0, 4));
        assert(be32_value(rem.subrange(0, 4)) == be32_value(rem));
    }
    reader.pos = reader.pos + N_BYTES_CHUNK_LENGTH;
    assert(reader.remaining() =~= old(reader).remaining().skip(4));
    Ok(length as usize)
}

/// Reads the chunk at the reader into `buffer` and returns its length.
/// Where the source ends inside the chunk, that is an error, and the
/// source is then spent. A length of 0 is returned for an empty chunk and
/// where fewer than four bytes were left.
pub fn read_chunk(reader: &mut ByteReader, buffer: &mut Vec<u8>) -> (r: Result<usize, NaiveError>)
    ensures
        final(reader).bytes == old(reader).bytes,
        chunk_is_whole(old(reader).remaining()) ==> {
            &&& r == Ok::<usize, NaiveError>(chunk_length(old(reader).remaining()) as usize)
            &&& final(buffer)@ == chunk_payload(old(reader).remaining())
            &&& final(reader).remaining() == after_chunk(old(reader).remaining())
            &&& old(reader).remaining().len() >= N_BYTES_CHUNK_LENGTH ==> final(reader).pos
                == old(reader).pos + N_BYTES_CHUNK_LENGTH + chunk_length(old(reader).remaining())
        },
        !chunk_is_whole(old(reader).remaining()) ==> {
            &&& r == Err::<usize, NaiveError>(NaiveError::IoError(IoErrorKind::UnexpectedEof))
            &&& final(buffer)@.len() == 0
            &&& final(reader).remaining().len() == 0
        },
{
    buffer.clear();
    let chunk_length = match read_chunk_length(reader) {
        Ok(n) => n,
        Err(e) => {
            return Err(e);
        },
    };
    if reader.remaining_len() < chunk_length {
        if reader.pos <= reader.bytes.len() {
            reader.pos = reader.bytes.len();
        }
        assert(reader.remaining() =~= Seq::<u8>::empty());
        return Err(NaiveError::IoError(IoErrorKind::UnexpectedEof));
    }
    if chunk_length > 0 {
        put_bytes(buffer, slice_subrange(reader.bytes, reader.pos, reader.pos + chunk_length));
        proof {
            let rest = after_length(old(reader).remaining());
            assert(reader.bytes@.subrange(reader.pos as int, reader.pos + chunk_length)
                =~= rest.take(chunk_length as int));
            assert(buffer@ =~= rest.take(chunk_length as int));
        }
        reader.pos = reader.pos + chunk_length;
        assert(reader.remaining() =~= after_length(old(reader).remaining()).skip(
            chunk_length as int,
        ));
    } else {
        assert(buffer@ =~= chunk_payload(old(reader).remaining()));
        assert(reader.remaining() =~= after_chunk(old(reader).remaining()));
    }
    Ok(chunk_length)
}

/// Appends `bytes` to `writer` as one chunk. A chunk of more bytes than
/// 32 bits count is refused, and nothing is written.
pub fn write_chunk(writer: &mut Vec<u8>, bytes: &[u8]) -> (r: Result<(), NaiveError>)
    ensures
        bytes@.len() <= u32::MAX ==> r is Ok && final(writer)@ == old(writer)@ + chunk(bytes@),
        bytes@.len() > u32::MAX ==> r == Err::<(), NaiveError>(NaiveError::InvalidData)
            && final(writer)@ == old(writer)@,
{
    if bytes.len() > 0xffff_ffff {
        return Err(NaiveError::InvalidData);
    }
    put_be32(writer, bytes.len() as u32);
    put_bytes(writer, bytes);
    assert(writer@ =~= old(writer)@ + chunk(bytes@));
    Ok(())
}

/// A source that begins with a whole chunk is that chunk and what is
/// left behind it.
pub proof fn lemma_chunk_split(rem: Seq<u8>)
    requires
        rem.len() >= N_BYTES_CHUNK_LENGTH,
        chunk_is_whole(rem),
    ensures
        chunk_length(rem) <= u32::MAX,
        rem == chunk(chunk_payload(rem)) + after_chunk(rem),
        chunk(chunk_payload(rem)).len() == N_BYTES_CHUNK_LENGTH + chunk_length(rem),
{
    let head = rem.subrange(0, 4);
    crate::command::lemma_be32_of_be32_value(head);
    assert(be32_value(head) == be32_value(rem));
    assert(rem =~= chunk(chunk_payload(rem)) + after_chunk(rem));
}

/// A message: the chunk that holds one command.
pub open spec fn message(command: crate::command::CommandView) -> Seq<u8> {
    chunk(encode_command(command))
}

/// Reads the chunk at the reader as one command. `None` stands for an
/// empty chunk and for the end of the source; bytes that spell no command
/// are an error.
pub fn read_message(reader: &mut ByteReader) -> (r: Result<Option<Command>, NaiveError>)
    ensures
        final(reader).bytes == old(reader).bytes,
        !chunk_is_whole(old(reader).remaining()) ==> {
            &&& r == Err::<Option<Command>, NaiveError>(
                NaiveError::IoError(IoErrorKind::UnexpectedEof),
            )
            &&& final(reader).remaining().len() == 0
        },
        chunk_is_whole(old(reader).remaining()) ==> {
            &&& final(reader).remaining() == after_chunk(old(reader).remaining())
            &&& if chunk_length(old(reader).remaining()) == 0 {
                r == Ok::<Option<Command>, NaiveError>(None)
            } else {
                match decode_command(chunk_payload(old(reader).remaining())) {
                    Some(command) => r matches Ok(Some(read)) && read@ == command,
                    None => r == Err::<Option<Command>, NaiveError>(NaiveError::ProtobufError),
                }
            }
        },
{
    let mut bytes: Vec<u8> = Vec::new();
    let num_bytes = match read_chunk(reader, &mut bytes) {
        Ok(n) => n,
        Err(e) => {
            return Err(e);
        },
    };
    if num_bytes == 0 {
        return Ok(None);
    }
    match Command::parse_from_bytes(bytes.as_slice()) {
        Ok(command) => Ok(Some(command)),
        Err(e) => Err(e),
    }
}

/// Appends `message` to `writer` as one chunk. A command of too many
/// bytes is refused, and nothing is written.
pub fn write_message(message: &Command, writer: &mut Vec<u8>) -> (r: Result<(), NaiveError>)
    ensures
        encodable(message@) ==> r is Ok
            && final(writer)@ == old(writer)@ + self::message(message@),
        !encodable(message@) ==> r == Err::<(), NaiveError>(NaiveError::ProtobufError)
            && final(writer)@ == old(writer)@,
{
    let bytes = match message.write_to_bytes() {
        Ok(bytes) => bytes,
        Err(e) => {
            return Err(e);
        },
    };
    proof {
        lemma_decode_of_encode(message@);
    }
    write_chunk(writer, bytes.as_slice())
}

/// A message that was written is read back as its command, whatever
/// follows it.
pub proof fn lemma_message_read_back(command: crate::command::CommandView, rest: Seq<u8>)
    requires
        encodable(command),
    ensures
        message(command).len() == N_BYTES_CHUNK_LENGTH + crate::command::encoded_len(command),
        chunk_is_whole(message(command) + rest),
        chunk_length(message(command) + rest) == crate::command::encoded_len(command),
        chunk_length(message(command) + rest) > 0,
        decode_command(chunk_payload(message(command) + rest)) == Some(command),
        after_chunk(message(command) + rest) == rest,
{
    lemma_decode_of_encode(command);
    lemma_chunk_read_back(encode_command(command), rest);
}

} // verus!
