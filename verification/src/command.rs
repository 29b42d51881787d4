//! The persisted form of a write, and its layout in bytes.
//!
//! A command is written as a kind byte, a byte that says whether a value
//! follows, the key and, if present, the value, each behind its length as
//! four big-endian bytes.

use vstd::prelude::*;
use vstd::string::*;
use vstd::slice::*;
use vstd::utf8::*;
use crate::order::key_bytes;
use crate::types::NaiveError;

verus! {

/// The kind of a command.
#[allow(non_camel_case_types)]
#[derive(Clone, Copy, Debug, PartialEq, Eq, Structural)]
pub enum CommandType {
    SET_VALUE,
    DELETE,
}

/// A write as it is logged: a key, a kind and, for a `SET_VALUE`, a value.
/// The type can hold a command whose kind and value disagree, as a file
/// can; `Record::from_command` refuses those.
#[derive(Clone, Debug, PartialEq, Eq)]
pub struct Command {
    key: String,
    command_type: CommandType,
    value: Option<String>,
}

/// A command as a mathematical value.
pub struct CommandView {
    pub key: Seq<char>,
    pub command_type: CommandType,
    pub value: Option<Seq<char>>,
}

impl View for Command {
    type V = CommandView;

    closed spec fn view(&self) -> CommandView {
        CommandView {
            key: self.key@,
            command_type: self.command_type,
            value: match self.value {
                Some(value) => Some(value@),
                None => None,
            },
        }
    }
}

/// The four big-endian bytes of a number.
pub open spec fn be32(n: u32) -> Seq<u8> {
    seq![
        (n / 0x100_0000) as u8,
        ((n / 0x1_0000) % 0x100) as u8,
        ((n / 0x100) % 0x100) as u8,
        (n % 0x100) as u8,
    ]
}

/// The number that the first four bytes of `b` spell, big-endian.
pub open spec fn be32_value(b: Seq<u8>) -> int
    recommends
        b.len() >= 4,
{
    b[0] * 0x100_0000 + b[1] * 0x1_0000 + b[2] * 0x100 + b[3]
}

/// Writing a number and reading it back gives the number.
pub proof fn lemma_be32_value_of_be32(n: u32)
    ensures
        be32(n).len() == 4,
        be32_value(be32(n)) == n,
{
}

/// Four bytes spell one number, and that number is written as those bytes.
pub proof fn lemma_be32_of_be32_value(b: Seq<u8>)
    requires
        b.len() == 4,
    ensures
        0 <= be32_value(b) <= u32::MAX,
        be32(be32_value(b) as u32) == b,
{
    lemma_be32_digits(b[0] as int, b[1] as int, b[2] as int, b[3] as int);
    assert(be32(be32_value(b) as u32) =~= b);
}

/// The four base-256 digits of a number are found by division.
proof fn lemma_be32_digits(b0: int, b1: int, b2: int, b3: int)
    by (nonlinear_arith)
    requires
        0 <= b0 < 0x100,
        0 <= b1 < 0x100,
        0 <= b2 < 0x100,
        0 <= b3 < 0x100,
    ensures
        ({
            let n = b0 * 0x100_0000 + b1 * 0x1_0000 + b2 * 0x100 + b3;
            &&& 0 <= n <= 0xffff_ffff
            &&& n / 0x100_0000 == b0
            &&& (n / 0x1_0000) % 0x100 == b1
            &&& (n / 0x100) % 0x100 == b2
            &&& n % 0x100 == b3
        }),
{
}

/// Appends the four big-endian bytes of `n`.
pub fn put_be32(out: &mut Vec<u8>, n: u32)
    ensures
        final(out)@ == old(out)@ + be32(n),
{
    out.push((n / 0x100_0000) as u8);
    out.push(((n / 0x1_0000) % 0x100) as u8);
    out.push(((n / 0x100) % 0x100) as u8);
    out.push((n % 0x100) as u8);
    assert(out@ =~= old(out)@ + be32(n));
}

/// Reads the number that the four bytes from `at` on spell.
pub fn get_be32(src: &[u8], at: usize) -> (n: u32)
    requires
        at + 4 <= src@.len(),
    ensures
        n == be32_value(src@.subrange(at as int, at + 4)),
{
    let b0: u32 = src[at] as u32;
    let b1: u32 = src[at + 1] as u32;
    let b2: u32 = src[at + 2] as u32;
    let b3: u32 = src[at + 3] as u32;
    b0 * 0x100_0000 + b1 * 0x1_0000 + b2 * 0x100 + b3
}

/// Appends the bytes of `src`.
pub fn put_bytes(out: &mut Vec<u8>, src: &[u8])
    ensures
        final(out)@ == old(out)@ + src@,
{
    let mut i: usize = 0;
    while i < src.len()
        invariant
            i <= src@.len(),
            out@ == old(out)@ + src@.subrange(0, i as int),
        decreases src@.len() - i,
    {
        out.push(src[i]);
        i += 1;
        assert(out@ =~= old(out)@ + src@.subrange(0, i as int));
    }
    assert(src@.subrange(0, i as int) =~= src@);
}

/// The byte that stands for a kind.
pub open spec fn kind_byte(kind: CommandType) -> u8 {
    match kind {
        CommandType::SET_VALUE => 0,
        CommandType::DELETE => 1,
    }
}

/// A length behind which the bytes of a string follow.
pub open spec fn sized(text: Seq<char>) -> Seq<u8> {
    be32(key_bytes(text).len() as u32) + key_bytes(text)
}

/// The number of bytes that a command is written with.
pub open spec fn encoded_len(command: CommandView) -> nat {
    match command.value {
        Some(value) => 10 + key_bytes(command.key).len() + key_bytes(value).len(),
        None => 6 + key_bytes(command.key).len(),
    }
}

/// The most bytes that a command may be written with: a chunk's length is
/// counted in 32 bits, and a chunk of a sorted run may hold up to a
/// kilobyte of earlier commands besides the command and its length.
pub const MAX_COMMAND_LEN: usize = 0xffff_fbfc;

/// A command can be written if its bytes number at most `MAX_COMMAND_LEN`.
pub open spec fn encodable(command: CommandView) -> bool {
    encoded_len(command) <= MAX_COMMAND_LEN
}

/// The bytes of a command.
pub open spec fn encode_command(command: CommandView) -> Seq<u8> {
    match command.value {
        Some(value) => seq![kind_byte(command.command_type), 1u8] + sized(command.key) + sized(
            value,
        ),
        None => seq![kind_byte(command.command_type), 0u8] + sized(command.key),
    }
}

/// The command that bytes spell, if they spell one: the whole of `b` must
/// be used, both strings must be valid UTF-8, and `b` must be no longer
/// than `MAX_COMMAND_LEN`.
pub open spec fn decode_command(b: Seq<u8>) -> Option<CommandView> {
    if b.len() < 6 || b.len() > MAX_COMMAND_LEN || b[0] > 1 || b[1] > 1 {
        None
    } else {
        let kind = if b[0] == 0 {
            CommandType::SET_VALUE
        } else {
            CommandType::DELETE
        };
        let klen = be32_value(b.subrange(2, 6));
        if b.len() < 6 + klen {
            None
        } else {
            let kb = b.subrange(6, 6 + klen);
            if !valid_utf8(kb) {
                None
            } else if b[1] == 0 {
                if b.len() != 6 + klen {
                    None
                } else {
                    Some(CommandView { key: decode_utf8(kb), command_type: kind, value: None })
                }
            } else if b.len() < 10 + klen {
                None
            } else {
                let vlen = be32_value(b.subrange(6 + klen, 10 + klen));
                let vb = b.subrange(10 + klen, b.len() as int);
                if b.len() != 10 + klen + vlen || !valid_utf8(vb) {
                    None
                } else {
                    Some(
                        CommandView {
                            key: decode_utf8(kb),
                            command_type: kind,
                            value: Some(decode_utf8(vb)),
                        },
                    )
                }
            }
        }
    }
}

/// What was written is read back: the bytes of a command that can be
/// written spell that command.
pub proof fn lemma_decode_of_encode(command: CommandView)
    requires
        encodable(command),
    ensures
        encode_command(command).len() == encoded_len(command),
        decode_command(encode_command(command)) == Some(command),
{
    let b = encode_command(command);
    let kb = key_bytes(command.key);
    let klen = kb.len() as int;
    lemma_be32_value_of_be32(kb.len() as u32);
    encode_utf8_decode_utf8(command.key);
    encode_utf8_valid_utf8(command.key);
    assert(b.subrange(2, 6) =~= be32(kb.len() as u32));
    assert(b.subrange(6, 6 + klen) =~= kb);
    match command.value {
        Some(value) => {
            let vb = key_bytes(value);
            lemma_be32_value_of_be32(vb.len() as u32);
            encode_utf8_decode_utf8(value);
            encode_utf8_valid_utf8(value);
            assert(b.subrange(6 + klen, 10 + klen) =~= be32(vb.len() as u32));
            assert(b.subrange(10 + klen, b.len() as int) =~= vb);
            assert(decode_command(b)->Some_0.value == Some(value));
        },
        None => {},
    }
    assert(decode_command(b)->Some_0.key == command.key);
}

/// What is read was written: bytes that spell a command are the bytes of
/// that command, and it can be written.
pub proof fn lemma_encode_of_decode(b: Seq<u8>)
    requires
        decode_command(b) is Some,
    ensures
        encodable(decode_command(b)->Some_0),
        encode_command(decode_command(b)->Some_0) == b,
{
    let command = decode_command(b)->Some_0;
    let klen = be32_value(b.subrange(2, 6));
    let kb = b.subrange(6, 6 + klen);
    lemma_be32_of_be32_value(b.subrange(2, 6));
    decode_utf8_encode_utf8(kb);
    if b[1] == 0 {
        assert(encode_command(command) =~= b);
    } else {
        let vb = b.subrange(10 + klen, b.len() as int);
        lemma_be32_of_be32_value(b.subrange(6 + klen, 10 + klen));
        decode_utf8_encode_utf8(vb);
        assert(encode_command(command) =~= b);
    }
}

/// `String::from_utf8` of std: succeeds exactly on valid UTF-8, and the
/// string then holds the characters that the bytes spell.
#[verifier::external_body]
pub(crate) fn string_from_utf8(bytes: Vec<u8>) -> (r: Option<String>)
    ensures
        r is Some <==> valid_utf8(bytes@),
        r matches Some(text) ==> text@ == decode_utf8(bytes@),
{
    String::from_utf8(bytes).ok()
}

impl Command {
    /// A `SET_VALUE` command without key and without value, to be filled
    /// by the setters.
    pub fn new() -> (command: Command)
        ensures
            command@ == (CommandView {
                key: Seq::<char>::empty(),
                command_type: CommandType::SET_VALUE,
                value: None,
            }),
    {
        Command { key: String::new(), command_type: CommandType::SET_VALUE, value: None }
    }

    /// Sets the key.
    pub fn set_key(&mut self, key: String)
        ensures
            final(self)@ == (CommandView { key: key@, ..old(self)@ }),
    {
        self.key = key;
    }

    /// Sets the kind.
    pub fn set_command_type(&mut self, command_type: CommandType)
        ensures
            final(self)@ == (CommandView { command_type: command_type, ..old(self)@ }),
    {
        self.command_type = command_type;
    }

    /// Sets the value, which is present from then on.
    pub fn set_value(&mut self, value: String)
        ensures
            final(self)@ == (CommandView { value: Some(value@), ..old(self)@ }),
    {
        self.value = Some(value);
    }

    /// The key.
    pub fn get_key(&self) -> (key: &str)
        ensures
            key@ == self@.key,
    {
        self.key.as_str()
    }

    /// The kind.
    pub fn get_command_type(&self) -> (command_type: CommandType)
        ensures
            command_type == self@.command_type,
    {
        self.command_type
    }

    /// Whether a value is present.
    pub fn has_value(&self) -> (present: bool)
        ensures
            present == self@.value is Some,
    {
        self.value.is_some()
    }

    /// The value, or the empty string where there is none.
    pub fn get_value(&self) -> (value: String)
        ensures
            value@ == (match self@.value {
                Some(value) => value,
                None => Seq::<char>::empty(),
            }),
    {
        match &self.value {
            Some(value) => value.clone(),
            None => String::new(),
        }
    }

    /// The bytes of the command; refused if they would be too many.
    pub fn write_to_bytes(&self) -> (r: Result<Vec<u8>, NaiveError>)
        ensures
            encodable(self@) ==> r is Ok && r->Ok_0@ == encode_command(self@),
            !encodable(self@) ==> r == Err::<Vec<u8>, NaiveError>(NaiveError::ProtobufError),
    {
        let key = self.key.as_str().as_bytes();
        let limit: usize = MAX_COMMAND_LEN;
        if key.len() > limit - 6 {
            return Err(NaiveError::ProtobufError);
        }
        let mut out: Vec<u8> = Vec::new();
        match &self.value {
            Some(value) => {
                let value = value.as_str().as_bytes();
                if key.len() > limit - 10 || value.len() > limit - 10 - key.len() {
                    return Err(NaiveError::ProtobufError);
                }
                out.push(kind_of(self.command_type));
                out.push(1u8);
                put_be32(&mut out, key.len() as u32);
                put_bytes(&mut out, key);
                put_be32(&mut out, value.len() as u32);
                put_bytes(&mut out, value);
                assert(out@ =~= encode_command(self@));
            },
            None => {
                out.push(kind_of(self.command_type));
                out.push(0u8);
                put_be32(&mut out, key.len() as u32);
                put_bytes(&mut out, key);
                assert(out@ =~= encode_command(self@));
            },
        }
        Ok(out)
    }

    /// The command that `bytes` spell; refused if they spell none.
    pub fn parse_from_bytes(bytes: &[u8]) -> (r: Result<Command, NaiveError>)
        ensures
            match decode_command(bytes@) {
                Some(command) => r is Ok && r->Ok_0@ == command,
                None => r == Err::<Command, NaiveError>(NaiveError::ProtobufError),
            },
    {
        let limit: usize = MAX_COMMAND_LEN;
        let len = bytes.len();
        if len < 6 || len > limit || bytes[0] > 1 || bytes[1] > 1 {
            return Err(NaiveError::ProtobufError);
        }
        let command_type = if bytes[0] == 0 {
            CommandType::SET_VALUE
        } else {
            CommandType::DELETE
        };
        let klen = get_be32(bytes, 2) as usize;
        if len - 6 < klen {
            return Err(NaiveError::ProtobufError);
        }
        let key = match string_from_utf8(slice_to_vec(slice_subrange(bytes, 6, 6 + klen))) {
            Some(key) => key,
            None => {
                return Err(NaiveError::ProtobufError);
            },
        };
        if bytes[1] == 0 {
            if len != 6 + klen {
                return Err(NaiveError::ProtobufError);
            }
            return Ok(Command { key, command_type, value: None });
        }
        if len - 6 - klen < 4 {
            return Err(NaiveError::ProtobufError);
        }
        let vlen = get_be32(bytes, 6 + klen) as usize;
        if len - 10 - klen != vlen {
            return Err(NaiveError::ProtobufError);
        }
        match string_from_utf8(slice_to_vec(slice_subrange(bytes, 10 + klen, len))) {
            Some(value) => Ok(Command { key, command_type, value: Some(value) }),
            None => Err(NaiveError::ProtobufError),
        }
    }
}

/// The byte that stands for a kind.
fn kind_of(kind: CommandType) -> (b: u8)
    ensures
        b == kind_byte(kind),
{
    match kind {
        CommandType::SET_VALUE => 0,
        CommandType::DELETE => 1,
    }
}

} // verus!
