//! Requests and responses: what a client and a server of the store say to
//! each other, and the layout of both in bytes.
//!
//! A request is written as the byte of its operation, a byte that says
//! whether a value follows, its number in four big-endian bytes, the key
//! and, if present, the value, each behind its length. A response is
//! written as the byte of its status, a byte each that says whether a
//! value and whether an error text follows, its number, and then what is
//! present of the two.

use vstd::prelude::*;
use vstd::slice::*;
use vstd::string::*;
use vstd::utf8::*;
use crate::command::{
    be32, be32_value, get_be32, lemma_be32_of_be32_value, lemma_be32_value_of_be32, put_be32,
    put_bytes, sized, string_from_utf8,
};
use crate::order::key_bytes;
use crate::types::NaiveError;

verus! {

/// What a client asks for.
#[allow(non_camel_case_types)]
#[derive(Clone, Copy, Debug, PartialEq, Eq, Structural)]
pub enum Operation {
    GET,
    SET,
    REMOVE,
}

/// How a request ended.
#[allow(non_camel_case_types)]
#[derive(Clone, Copy, Debug, PartialEq, Eq, Structural)]
pub enum Status {
    OK,
    KEY_NOT_FOUND,
    VALUE_MISSING,
    OPERATION_NOT_SUPPORTED,
    INTERNAL_ERROR,
}

/// A request of a client.
#[derive(Clone, Debug, PartialEq, Eq)]
pub struct Request {
    id: u32,
    operation: Operation,
    key: String,
    value: Option<String>,
}

/// A request as a mathematical value.
pub struct RequestView {
    pub id: u32,
    pub operation: Operation,
    pub key: Seq<char>,
    pub value: Option<Seq<char>>,
}

/// The response to a request.
#[derive(Clone, Debug, PartialEq, Eq)]
pub struct Response {
    id: u32,
    status: Status,
    value: Option<String>,
    error: Option<String>,
}

/// A response as a mathematical value.
pub struct ResponseView {
    pub id: u32,
    pub status: Status,
    pub value: Option<Seq<char>>,
    pub error: Option<Seq<char>>,
}

/// The view of an optional text.
pub open spec fn text_view(text: Option<String>) -> Option<Seq<char>> {
    match text {
        Some(text) => Some(text@),
        None => None,
    }
}

impl View for Request {
    type V = RequestView;

    closed spec fn view(&self) -> RequestView {
        RequestView {
            id: self.id,
            operation: self.operation,
            key: self.key@,
            value: text_view(self.value),
        }
    }
}

impl View for Response {
    type V = ResponseView;

    closed spec fn view(&self) -> ResponseView {
        ResponseView {
            id: self.id,
            status: self.status,
            value: text_view(self.value),
            error: text_view(self.error),
        }
    }
}

/// The byte that stands for an operation.
pub open spec fn operation_byte(operation: Operation) -> u8 {
    match operation {
        Operation::GET => 0,
        Operation::SET => 1,
        Operation::REMOVE => 2,
    }
}

/// The byte that stands for a status.
pub open spec fn status_byte(status: Status) -> u8 {
    match status {
        Status::OK => 0,
        Status::KEY_NOT_FOUND => 1,
        Status::VALUE_MISSING => 2,
        Status::OPERATION_NOT_SUPPORTED => 3,
        Status::INTERNAL_ERROR => 4,
    }
}

/// The byte that says whether a text is present.
pub open spec fn flag_byte(text: Option<Seq<char>>) -> u8 {
    if text is Some {
        1
    } else {
        0
    }
}

/// A text behind its length, or nothing where there is no text.
pub open spec fn sized_if_present(text: Option<Seq<char>>) -> Seq<u8> {
    match text {
        Some(text) => sized(text),
        None => Seq::<u8>::empty(),
    }
}

/// The bytes of a request.
pub open spec fn encode_request(request: RequestView) -> Seq<u8> {
    seq![operation_byte(request.operation), flag_byte(request.value)] + be32(request.id) + sized(
        request.key,
    ) + sized_if_present(request.value)
}

/// The bytes of a response.
pub open spec fn encode_response(response: ResponseView) -> Seq<u8> {
    seq![status_byte(response.status), flag_byte(response.value), flag_byte(response.error)]
        + be32(response.id) + sized_if_present(response.value) + sized_if_present(response.error)
}

/// The number of bytes of a text behind its length, or 0 where there is
/// no text.
pub open spec fn sized_len(text: Option<Seq<char>>) -> nat {
    match text {
        Some(text) => 4 + key_bytes(text).len(),
        None => 0,
    }
}

/// A request can be written if its bytes fit in a chunk.
pub open spec fn request_fits(request: RequestView) -> bool {
    6 + sized_len(Some(request.key)) + sized_len(request.value) <= u32::MAX
}

/// A response can be written if its bytes fit in a chunk.
pub open spec fn response_fits(response: ResponseView) -> bool {
    7 + sized_len(response.value) + sized_len(response.error) <= u32::MAX
}

/// The text that stands behind its length at `at`, and the place behind
/// it; nothing where the bytes end before the text does or the text is
/// not valid UTF-8.
pub open spec fn take_sized(b: Seq<u8>, at: int) -> Option<(Seq<char>, int)> {
    if at < 0 || at + 4 > b.len() {
        None
    } else {
        let len = be32_value(b.subrange(at, at + 4));
        if at + 4 + len > b.len() || !valid_utf8(b.subrange(at + 4, at + 4 + len)) {
            None
        } else {
            Some((decode_utf8(b.subrange(at + 4, at + 4 + len)), at + 4 + len))
        }
    }
}

/// The text that may stand at `at`: the text that stands there if `flag`
/// says that there is one, and none else.
pub open spec fn take_if_present(b: Seq<u8>, at: int, flag: u8) -> Option<
    (Option<Seq<char>>, int),
> {
    if flag == 0 {
        Some((None, at))
    } else {
        match take_sized(b, at) {
            Some((text, next)) => Some((Some(text), next)),
            None => None,
        }
    }
}

/// The operation that a byte stands for.
pub open spec fn operation_of(byte: u8) -> Operation {
    if byte == 0 {
        Operation::GET
    } else if byte == 1 {
        Operation::SET
    } else {
        Operation::REMOVE
    }
}

/// The status that a byte stands for.
pub open spec fn status_of(byte: u8) -> Status {
    if byte == 0 {
        Status::OK
    } else if byte == 1 {
        Status::KEY_NOT_FOUND
    } else if byte == 2 {
        Status::VALUE_MISSING
    } else if byte == 3 {
        Status::OPERATION_NOT_SUPPORTED
    } else {
        Status::INTERNAL_ERROR
    }
}

/// The request that bytes spell, if they spell one: the whole of `b` must
/// be used.
pub open spec fn decode_request(b: Seq<u8>) -> Option<RequestView> {
    if b.len() < 6 || b.len() > u32::MAX || b[0] > 2 || b[1] > 1 {
        None
    } else {
        match take_sized(b, 6) {
            None => None,
            Some((key, next)) => match take_if_present(b, next, b[1]) {
                None => None,
                Some((value, end)) => if end != b.len() {
                    None
                } else {
                    Some(
                        RequestView {
                            id: be32_value(b.subrange(2, 6)) as u32,
                            operation: operation_of(b[0]),
                            key: key,
                            value: value,
                        },
                    )
                },
            },
        }
    }
}

/// The response that bytes spell, if they spell one: the whole of `b`
/// must be used.
pub open spec fn decode_response(b: Seq<u8>) -> Option<ResponseView> {
    if b.len() < 7 || b.len() > u32::MAX || b[0] > 4 || b[1] > 1 || b[2] > 1 {
        None
    } else {
        match take_if_present(b, 7, b[1]) {
            None => None,
            Some((value, next)) => match take_if_present(b, next, b[2]) {
                None => None,
                Some((error, end)) => if end != b.len() {
                    None
                } else {
                    Some(
                        ResponseView {
                            id: be32_value(b.subrange(3, 7)) as u32,
                            status: status_of(b[0]),
                            value: value,
                            error: error,
                        },
                    )
                },
            },
        }
    }
}

/// A text that was written behind `front` is taken from there, whatever
/// follows it.
pub proof fn lemma_take_of_sized(front: Seq<u8>, text: Seq<char>, back: Seq<u8>)
    requires
        key_bytes(text).len() <= u32::MAX,
    ensures
        sized(text).len() == 4 + key_bytes(text).len(),
        take_sized(front + sized(text) + back, front.len() as int) == Some(
            (text, (front.len() + 4 + key_bytes(text).len()) as int),
        ),
{
    let b = front + sized(text) + back;
    let at = front.len() as int;
    let bytes = key_bytes(text);
    lemma_be32_value_of_be32(bytes.len() as u32);
    encode_utf8_decode_utf8(text);
    encode_utf8_valid_utf8(text);
    assert(b.subrange(at, at + 4) =~= be32(bytes.len() as u32));
    assert(b.subrange(at + 4, at + 4 + bytes.len()) =~= bytes);
}

/// A text that may be present and was written behind `front` is taken
/// from there, whatever follows it.
pub proof fn lemma_take_of_present(front: Seq<u8>, text: Option<Seq<char>>, back: Seq<u8>)
    requires
        sized_len(text) <= u32::MAX,
    ensures
        sized_if_present(text).len() == sized_len(text),
        take_if_present(front + sized_if_present(text) + back, front.len() as int, flag_byte(text))
            == Some((text, (front.len() + sized_len(text)) as int)),
{
    match text {
        Some(text) => {
            lemma_take_of_sized(front, text, back);
        },
        None => {},
    }
}

/// A text that is taken from bytes stands there behind its length.
pub proof fn lemma_sized_of_take(b: Seq<u8>, at: int)
    requires
        take_sized(b, at) is Some,
    ensures
        at + 4 <= take_sized(b, at)->Some_0.1 <= b.len(),
        b.subrange(at, take_sized(b, at)->Some_0.1) == sized(take_sized(b, at)->Some_0.0),
        take_sized(b, at)->Some_0.1 - at == sized_len(Some(take_sized(b, at)->Some_0.0)),
{
    let len = be32_value(b.subrange(at, at + 4));
    let bytes = b.subrange(at + 4, at + 4 + len);
    lemma_be32_of_be32_value(b.subrange(at, at + 4));
    decode_utf8_encode_utf8(bytes);
    assert(b.subrange(at, at + 4 + len) =~= be32(len as u32) + bytes);
}

/// A text that may be present and is taken from bytes stands there.
pub proof fn lemma_present_of_take(b: Seq<u8>, at: int, flag: u8)
    requires
        0 <= at <= b.len(),
        flag <= 1,
        take_if_present(b, at, flag) is Some,
    ensures
        at <= take_if_present(b, at, flag)->Some_0.1 <= b.len(),
        b.subrange(at, take_if_present(b, at, flag)->Some_0.1) == sized_if_present(
            take_if_present(b, at, flag)->Some_0.0,
        ),
        flag_byte(take_if_present(b, at, flag)->Some_0.0) == flag,
        take_if_present(b, at, flag)->Some_0.1 - at == sized_len(
            take_if_present(b, at, flag)->Some_0.0,
        ),
{
    if flag == 0 {
        assert(b.subrange(at, at) =~= Seq::<u8>::empty());
    } else {
        lemma_sized_of_take(b, at);
    }
}

/// A request that was written is read back.
pub proof fn lemma_decode_of_request(request: RequestView)
    requires
        request_fits(request),
    ensures
        encode_request(request).len() == 6 + sized_len(Some(request.key)) + sized_len(
            request.value,
        ),
        decode_request(encode_request(request)) == Some(request),
{
    let head = seq![operation_byte(request.operation), flag_byte(request.value)] + be32(
        request.id,
    );
    let b = encode_request(request);
    let nothing = Seq::<u8>::empty();
    lemma_be32_value_of_be32(request.id);
    lemma_take_of_sized(head, request.key, sized_if_present(request.value));
    let front = head + sized(request.key);
    lemma_take_of_present(front, request.value, nothing);
    assert(b =~= front + sized_if_present(request.value) + nothing);
    assert(b.subrange(2, 6) =~= be32(request.id));
}

/// A response that was written is read back.
pub proof fn lemma_decode_of_response(response: ResponseView)
    requires
        response_fits(response),
    ensures
        encode_response(response).len() == 7 + sized_len(response.value) + sized_len(
            response.error,
        ),
        decode_response(encode_response(response)) == Some(response),
{
    let head = seq![
        status_byte(response.status),
        flag_byte(response.value),
        flag_byte(response.error),
    ] + be32(response.id);
    let b = encode_response(response);
    let nothing = Seq::<u8>::empty();
    lemma_be32_value_of_be32(response.id);
    lemma_take_of_present(head, response.value, sized_if_present(response.error));
    let front = head + sized_if_present(response.value);
    lemma_take_of_present(front, response.error, nothing);
    assert(b =~= front + sized_if_present(response.error) + nothing);
    assert(b.subrange(3, 7) =~= be32(response.id));
}

/// Bytes that spell a request are the bytes of that request.
pub proof fn lemma_request_of_decode(b: Seq<u8>)
    requires
        decode_request(b) is Some,
    ensures
        request_fits(decode_request(b)->Some_0),
        encode_request(decode_request(b)->Some_0) == b,
{
    let request = decode_request(b)->Some_0;
    lemma_be32_of_be32_value(b.subrange(2, 6));
    lemma_sized_of_take(b, 6);
    let next = take_sized(b, 6)->Some_0.1;
    lemma_present_of_take(b, next, b[1]);
    assert(b =~= b.subrange(0, 2) + b.subrange(2, 6) + b.subrange(6, next) + b.subrange(
        next,
        b.len() as int,
    ));
    assert(b.subrange(0, 2) =~= seq![
        operation_byte(request.operation),
        flag_byte(request.value),
    ]);
}

/// Bytes that spell a response are the bytes of that response.
pub proof fn lemma_response_of_decode(b: Seq<u8>)
    requires
        decode_response(b) is Some,
    ensures
        response_fits(decode_response(b)->Some_0),
        encode_response(decode_response(b)->Some_0) == b,
{
    let response = decode_response(b)->Some_0;
    lemma_be32_of_be32_value(b.subrange(3, 7));
    lemma_present_of_take(b, 7, b[1]);
    let next = take_if_present(b, 7, b[1])->Some_0.1;
    lemma_present_of_take(b, next, b[2]);
    assert(b =~= b.subrange(0, 3) + b.subrange(3, 7) + b.subrange(7, next) + b.subrange(
        next,
        b.len() as int,
    ));
    assert(b.subrange(0, 3) =~= seq![
        status_byte(response.status),
        flag_byte(response.value),
        flag_byte(response.error),
    ]);
}

/// Reads the text that stands behind its length at `at`.
fn read_sized(bytes: &[u8], at: usize) -> (r: Option<(String, usize)>)
    ensures
        match take_sized(bytes@, at as int) {
            Some(taken) => r matches Some(found) && found.0@ == taken.0 && found.1 == taken.1,
            None => r is None,
        },
{
    let len = bytes.len();
    if at > len || len - at < 4 {
        return None;
    }
    let text_len = get_be32(bytes, at) as usize;
    if len - at - 4 < text_len {
        return None;
    }
    match string_from_utf8(slice_to_vec(slice_subrange(bytes, at + 4, at + 4 + text_len))) {
        Some(text) => Some((text, at + 4 + text_len)),
        None => None,
    }
}

/// Reads the text that may stand at `at`.
fn read_if_present(bytes: &[u8], at: usize, flag: u8) -> (r: Option<(Option<String>, usize)>)
    ensures
        match take_if_present(bytes@, at as int, flag) {
            Some(taken) => r matches Some(found) && text_view(found.0) == taken.0 && found.1
                == taken.1,
            None => r is None,
        },
{
    if flag == 0 {
        return Some((None, at));
    }
    match read_sized(bytes, at) {
        Some((text, next)) => Some((Some(text), next)),
        None => None,
    }
}

/// Appends `text` behind its length.
fn put_sized(out: &mut Vec<u8>, text: &str)
    requires
        key_bytes(text@).len() <= u32::MAX,
    ensures
        final(out)@ == old(out)@ + sized(text@),
{
    let bytes = text.as_bytes();
    put_be32(out, bytes.len() as u32);
    put_bytes(out, bytes);
    assert(out@ =~= old(out)@ + sized(text@));
}

/// Appends the text behind its length, if there is one.
fn put_if_present(out: &mut Vec<u8>, text: &Option<String>)
    requires
        sized_len(text_view(*text)) <= u32::MAX,
    ensures
        final(out)@ == old(out)@ + sized_if_present(text_view(*text)),
{
    match text {
        Some(text) => {
            put_sized(out, text.as_str());
        },
        None => {
            assert(out@ =~= old(out)@ + sized_if_present(None));
        },
    }
}

/// The number of bytes that a text is written with behind its length, if
/// the text is no longer than `limit` allows.
fn sized_size(text: &Option<String>, limit: usize) -> (r: Option<usize>)
    ensures
        match r {
            Some(size) => size == sized_len(text_view(*text)) && size <= limit,
            None => sized_len(text_view(*text)) > limit,
        },
{
    match text {
        Some(text) => {
            let len = text.as_str().as_bytes().len();
            if limit < 4 || len > limit - 4 {
                None
            } else {
                Some(len + 4)
            }
        },
        None => Some(0),
    }
}

fn operation_to_byte(operation: Operation) -> (b: u8)
    ensures
        b == operation_byte(operation),
{
    match operation {
        Operation::GET => 0,
        Operation::SET => 1,
        Operation::REMOVE => 2,
    }
}

fn status_to_byte(status: Status) -> (b: u8)
    ensures
        b == status_byte(status),
{
    match status {
        Status::OK => 0,
        Status::KEY_NOT_FOUND => 1,
        Status::VALUE_MISSING => 2,
        Status::OPERATION_NOT_SUPPORTED => 3,
        Status::INTERNAL_ERROR => 4,
    }
}

fn flag_of(text: &Option<String>) -> (b: u8)
    ensures
        b == flag_byte(text_view(*text)),
{
    if text.is_some() {
        1
    } else {
        0
    }
}

impl Request {
    /// A `GET` of the empty key with the number 0.
    pub fn new() -> (request: Request)
        ensures
            request@ == (RequestView {
                id: 0,
                operation: Operation::GET,
                key: Seq::<char>::empty(),
                value: None,
            }),
    {
        Request { id: 0, operation: Operation::GET, key: String::new(), value: None }
    }

    /// Sets the number.
    pub fn set_id(&mut self, id: u32)
        ensures
            final(self)@ == (RequestView { id: id, ..old(self)@ }),
    {
        self.id = id;
    }

    /// Sets the operation.
    pub fn set_operation(&mut self, operation: Operation)
        ensures
            final(self)@ == (RequestView { operation: operation, ..old(self)@ }),
    {
        self.operation = operation;
    }

    /// Sets the key.
    pub fn set_key(&mut self, key: String)
        ensures
            final(self)@ == (RequestView { key: key@, ..old(self)@ }),
    {
        self.key = key;
    }

    /// Sets the value, which is present from then on.
    pub fn set_value(&mut self, value: String)
        ensures
            final(self)@ == (RequestView { value: Some(value@), ..old(self)@ }),
    {
        self.value = Some(value);
    }

    /// The number.
    pub fn get_id(&self) -> (id: u32)
        ensures
            id == self@.id,
    {
        self.id
    }

    /// The operation.
    pub fn get_operation(&self) -> (operation: Operation)
        ensures
            operation == self@.operation,
    {
        self.operation
    }

    /// The key.
    pub fn get_key(&self) -> (key: &str)
        ensures
            key@ == self@.key,
    {
        self.key.as_str()
    }

    /// Whether a value is present.
    pub fn has_value(&self) -> (present: bool)
        ensures
            present == self@.value is Some,
    {
        self.value.is_some()
    }

    /// The value, or the empty string where there is none.
    pub fn get_value(&self) -> (value: String)
        ensures
            value@ == (match self@.value {
                Some(value) => value,
                None => Seq::<char>::empty(),
            }),
    {
        match &self.value {
            Some(value) => value.clone(),
            None => String::new(),
        }
    }

    /// The bytes of the request; refused if they would not fit in a
    /// chunk.
    pub fn write_to_bytes(&self) -> (r: Result<Vec<u8>, NaiveError>)
        ensures
            request_fits(self@) ==> r is Ok && r->Ok_0@ == encode_request(self@),
            !request_fits(self@) ==> (r matches Err(e) && e == NaiveError::ProtobufError),
    {
        let limit: usize = 0xffff_ffff - 6;
        let key_len = self.key.as_str().as_bytes().len();
        if key_len > limit - 4 {
            return Err(NaiveError::ProtobufError);
        }
        match sized_size(&self.value, limit - 4 - key_len) {
            Some(_) => {},
            None => {
                return Err(NaiveError::ProtobufError);
            },
        }
        let mut out: Vec<u8> = Vec::new();
        out.push(operation_to_byte(self.operation));
        out.push(flag_of(&self.value));
        put_be32(&mut out, self.id);
        put_sized(&mut out, self.key.as_str());
        put_if_present(&mut out, &self.value);
        assert(out@ =~= encode_request(self@));
        Ok(out)
    }

    /// The request that `bytes` spell; refused if they spell none.
    pub fn parse_from_bytes(bytes: &[u8]) -> (r: Result<Request, NaiveError>)
        ensures
            match decode_request(bytes@) {
                Some(request) => r is Ok && r->Ok_0@ == request,
                None => r matches Err(e) && e == NaiveError::ProtobufError,
            },
    {
        let len = bytes.len();
        if len < 6 || len > 0xffff_ffff || bytes[0] > 2 || bytes[1] > 1 {
            return Err(NaiveError::ProtobufError);
        }
        let operation = if bytes[0] == 0 {
            Operation::GET
        } else if bytes[0] == 1 {
            Operation::SET
        } else {
            Operation::REMOVE
        };
        let id = get_be32(bytes, 2);
        let (key, next) = match read_sized(bytes, 6) {
            Some(found) => found,
            None => {
                return Err(NaiveError::ProtobufError);
            },
        };
        let (value, end) = match read_if_present(bytes, next, bytes[1]) {
            Some(found) => found,
            None => {
                return Err(NaiveError::ProtobufError);
            },
        };
        if end != len {
            return Err(NaiveError::ProtobufError);
        }
        Ok(Request { id, operation, key, value })
    }
}

impl Response {
    /// An `OK` without value and error text, with the number 0.
    pub fn new() -> (response: Response)
        ensures
            response@ == (ResponseView { id: 0, status: Status::OK, value: None, error: None }),
    {
        Response { id: 0, status: Status::OK, value: None, error: None }
    }

    /// Sets the number.
    pub fn set_id(&mut self, id: u32)
        ensures
            final(self)@ == (ResponseView { id: id, ..old(self)@ }),
    {
        self.id = id;
    }

    /// Sets the status.
    pub fn set_status(&mut self, status: Status)
        ensures
            final(self)@ == (ResponseView { status: status, ..old(self)@ }),
    {
        self.status = status;
    }

    /// Sets the value, which is present from then on.
    pub fn set_value(&mut self, value: String)
        ensures
            final(self)@ == (ResponseView { value: Some(value@), ..old(self)@ }),
    {
        self.value = Some(value);
    }

    /// Sets the error text, which is present from then on.
    pub fn set_error(&mut self, error: String)
        ensures
            final(self)@ == (ResponseView { error: Some(error@), ..old(self)@ }),
    {
        self.error = Some(error);
    }

    /// The number.
    pub fn get_id(&self) -> (id: u32)
        ensures
            id == self@.id,
    {
        self.id
    }

    /// The status.
    pub fn get_status(&self) -> (status: Status)
        ensures
            status == self@.status,
    {
        self.status
    }

    /// Whether a value is present.
    pub fn has_value(&self) -> (present: bool)
        ensures
            present == self@.value is Some,
    {
        self.value.is_some()
    }

    /// The value, or the empty string where there is none.
    pub fn get_value(&self) -> (value: String)
        ensures
            value@ == (match self@.value {
                Some(value) => value,
                None => Seq::<char>::empty(),
            }),
    {
        match &self.value {
            Some(value) => value.clone(),
            None => String::new(),
        }
    }

    /// Whether an error text is present.
    pub fn has_error(&self) -> (present: bool)
        ensures
            present == self@.error is Some,
    {
        self.error.is_some()
    }

    /// The error text, or the empty string where there is none.
    pub fn get_error(&self) -> (error: String)
        ensures
            error@ == (match self@.error {
                Some(error) => error,
                None => Seq::<char>::empty(),
            }),
    {
        match &self.error {
            Some(error) => error.clone(),
            None => String::new(),
        }
    }

    /// The bytes of the response; refused if they would not fit in a
    /// chunk.
    pub fn write_to_bytes(&self) -> (r: Result<Vec<u8>, NaiveError>)
        ensures
            response_fits(self@) ==> r is Ok && r->Ok_0@ == encode_response(self@),
            !response_fits(self@) ==> (r matches Err(e) && e == NaiveError::ProtobufError),
    {
        let limit: usize = 0xffff_ffff - 7;
        let value_size = match sized_size(&self.value, limit) {
            Some(size) => size,
            None => {
                return Err(NaiveError::ProtobufError);
            },
        };
        match sized_size(&self.error, limit - value_size) {
            Some(_) => {},
            None => {
                return Err(NaiveError::ProtobufError);
            },
        }
        let mut out: Vec<u8> = Vec::new();
        out.push(status_to_byte(self.status));
        out.push(flag_of(&self.value));
        out.push(flag_of(&self.error));
        put_be32(&mut out, self.id);
        put_if_present(&mut out, &self.value);
        put_if_present(&mut out, &self.error);
        assert(out@ =~= encode_response(self@));
        Ok(out)
    }

    /// The response that `bytes` spell; refused if they spell none.
    pub fn parse_from_bytes(bytes: &[u8]) -> (r: Result<Response, NaiveError>)
        ensures
            match decode_response(bytes@) {
                Some(response) => r is Ok && r->Ok_0@ == response,
                None => r matches Err(e) && e == NaiveError::ProtobufError,
            },
    {
        let len = bytes.len();
        if len < 7 || len > 0xffff_ffff || bytes[0] > 4 || bytes[1] > 1 || bytes[2] > 1 {
            return Err(NaiveError::ProtobufError);
        }
        let status = if bytes[0] == 0 {
            Status::OK
        } else if bytes[0] == 1 {
            Status::KEY_NOT_FOUND
        } else if bytes[0] == 2 {
            Status::VALUE_MISSING
        } else if bytes[0] == 3 {
            Status::OPERATION_NOT_SUPPORTED
        } else {
            Status::INTERNAL_ERROR
        };
        let id = get_be32(bytes, 3);
        let (value, next) = match read_if_present(bytes, 7, bytes[1]) {
            Some(found) => found,
            None => {
                return Err(NaiveError::ProtobufError);
            },
        };
        let (error, end) = match read_if_present(bytes, next, bytes[2]) {
            Some(found) => found,
            None => {
                return Err(NaiveError::ProtobufError);
            },
        };
        if end != len {
            return Err(NaiveError::ProtobufError);
        }
        Ok(Response { id, status, value, error })
    }
}

} // verus!
