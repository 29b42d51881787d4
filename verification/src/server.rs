//! The answer of the store to a request, and the framing of requests and
//! responses on a connection.

use vstd::prelude::*;
use vstd::string::*;
use crate::catalog::{Catalog, CatalogViewer};
use crate::command::{encodable, Command, CommandType, CommandView};
use crate::memtable::LoggedWrite;
use crate::messages::{
    decode_request, decode_response, encode_request, encode_response, request_fits,
    response_fits, Operation, Request, RequestView, Response, ResponseView, Status,
};
use crate::types::{IoErrorKind, NaiveError};
use crate::utils::{
    after_chunk, chunk, chunk_is_whole, chunk_length, chunk_payload, message, read_chunk,
    write_chunk, ByteReader,
};

verus! {

/// The command that a request to set or to remove is logged as.
pub open spec fn command_of(request: RequestView) -> CommandView {
    match request.operation {
        Operation::REMOVE => CommandView {
            key: request.key,
            command_type: CommandType::DELETE,
            value: None,
        },
        _ => CommandView {
            key: request.key,
            command_type: CommandType::SET_VALUE,
            value: request.value,
        },
    }
}

/// How a request ends on a store: a `GET` of a key without value finds
/// nothing, a `SET` without value misses its value, and a write that is
/// too large to be logged fails.
pub open spec fn status_for(store: Map<Seq<char>, Seq<char>>, request: RequestView) -> Status {
    match request.operation {
        Operation::GET => if store.contains_key(request.key) {
            Status::OK
        } else {
            Status::KEY_NOT_FOUND
        },
        Operation::SET => if request.value is None {
            Status::VALUE_MISSING
        } else if encodable(command_of(request)) {
            Status::OK
        } else {
            Status::INTERNAL_ERROR
        },
        Operation::REMOVE => if encodable(command_of(request)) {
            Status::OK
        } else {
            Status::INTERNAL_ERROR
        },
    }
}

/// What a store holds after a request: a `SET` and a `REMOVE` that end
/// well are applied, and nothing else changes the store.
pub open spec fn store_after(store: Map<Seq<char>, Seq<char>>, request: RequestView) -> Map<
    Seq<char>,
    Seq<char>,
> {
    if status_for(store, request) != Status::OK {
        store
    } else {
        match request.operation {
            Operation::GET => store,
            Operation::SET => store.insert(request.key, request.value->Some_0),
            Operation::REMOVE => store.remove(request.key),
        }
    }
}

/// The response to a request: it carries the number of the request and
/// its status, and the value that a `GET` found. What else the response
/// held is left as it was.
pub open spec fn response_for(
    store: Map<Seq<char>, Seq<char>>,
    request: RequestView,
    before: ResponseView,
) -> ResponseView {
    ResponseView {
        id: request.id,
        status: status_for(store, request),
        value: if request.operation == Operation::GET && store.contains_key(request.key) {
            Some(store[request.key])
        } else {
            before.value
        },
        error: before.error,
    }
}

/// The request is a write that is applied: a `SET` with a value or a
/// `REMOVE`, whose command can be logged.
pub open spec fn is_applied_write(request: RequestView) -> bool {
    let writes = match request.operation {
        Operation::GET => false,
        Operation::SET => request.value is Some,
        Operation::REMOVE => true,
    };
    writes && encodable(command_of(request))
}

/// What a request adds to the write-ahead log: the message of its
/// command if it is a write that is applied, and nothing else.
pub open spec fn log_entry(request: RequestView) -> Seq<u8> {
    if is_applied_write(request) {
        message(command_of(request))
    } else {
        Seq::<u8>::empty()
    }
}

/// The write is the one that the request asks for: there is one exactly
/// if the request is a write that is applied, and it is ready to be
/// logged with the command of the request.
pub open spec fn write_is_for(write: Option<LoggedWrite>, request: RequestView) -> bool {
    &&& write is Some <==> is_applied_write(request)
    &&& write matches Some(write) ==> write.inv() && write.command() == command_of(request)
}

/// Makes the write that a request asks for ready to be logged; `None` for
/// a request that is no write or whose write is not applied. Who keeps
/// the log in a file appends the bytes of the write to the file before
/// the request is handled.
pub fn logged_write(request: &Request) -> (write: Option<LoggedWrite>)
    ensures
        write_is_for(write, request@),
        write matches Some(write) ==> write.entry_bytes() == log_entry(request@),
{
    let mut command = Command::new();
    command.set_key(request.get_key().to_owned());
    match request.get_operation() {
        Operation::GET => {
            return None;
        },
        Operation::SET => {
            if !request.has_value() {
                return None;
            }
            command.set_command_type(CommandType::SET_VALUE);
            command.set_value(request.get_value());
        },
        Operation::REMOVE => {
            command.set_command_type(CommandType::DELETE);
        },
    }
    assert(command@ == command_of(request@));
    match LoggedWrite::new(command) {
        Ok(write) => {
            proof {
                write.lemma_inv();
            }
            Some(write)
        },
        Err(_) => None,
    }
}

/// Answers a `GET` on the catalog, which is only read, and fills in the
/// response.
pub fn handle_get(
    catalog_viewer: &mut CatalogViewer,
    catalog: &Catalog,
    request: &Request,
    response: &mut Response,
)
    requires
        catalog.wf(),
        request@.operation == Operation::GET,
    ensures
        final(response)@ == response_for(catalog@, request@, old(response)@),
{
    response.set_status(Status::OK);
    response.set_id(request.get_id());
    match catalog_viewer.get(catalog, request.get_key()) {
        Ok(Some(value)) => {
            response.set_value(value);
        },
        Ok(None) => {
            response.set_status(Status::KEY_NOT_FOUND);
        },
        Err(_) => {
            response.set_status(Status::INTERNAL_ERROR);
        },
    }
}

/// Answers a request whose write, if it asks for one, the caller has
/// logged, and fills in the response.
pub fn handle_logged(
    catalog_viewer: &mut CatalogViewer,
    catalog: &mut Catalog,
    request: &Request,
    write: Option<LoggedWrite>,
    response: &mut Response,
)
    requires
        old(catalog).wf(),
        write_is_for(write, request@),
    ensures
        final(catalog).wf(),
        final(catalog).folder_path == old(catalog).folder_path,
        final(catalog).ro_memtable == old(catalog).ro_memtable,
        final(catalog).sstables == old(catalog).sstables,
        final(catalog)@ == store_after(old(catalog)@, request@),
        final(catalog).memtable.log_bytes() == old(catalog).memtable.log_bytes()
            + log_entry(request@),
        final(response)@ == response_for(old(catalog)@, request@, old(response)@),
{
    let ghost log = catalog.memtable.log_bytes();
    proof {
        assert(log + Seq::<u8>::empty() =~= log);
    }
    match request.get_operation() {
        Operation::GET => {
            handle_get(catalog_viewer, catalog, request, response);
            return ;
        },
        _ => {},
    }
    response.set_status(Status::OK);
    response.set_id(request.get_id());
    match write {
        Some(write) => {
            proof {
                write.lemma_inv();
            }
            catalog_viewer.commit(catalog, write);
        },
        None => {
            if request.has_value() || request.get_operation() == Operation::REMOVE {
                response.set_status(Status::INTERNAL_ERROR);
            } else {
                response.set_status(Status::VALUE_MISSING);
            }
        },
    }
}

/// Answers a request on the catalog through the view of a client, and
/// fills in the response.
pub fn handle_request(
    catalog_viewer: &mut CatalogViewer,
    catalog: &mut Catalog,
    request: &Request,
    response: &mut Response,
)
    requires
        old(catalog).wf(),
    ensures
        final(catalog).wf(),
        final(catalog).folder_path == old(catalog).folder_path,
        final(catalog).ro_memtable == old(catalog).ro_memtable,
        final(catalog).sstables == old(catalog).sstables,
        final(catalog)@ == store_after(old(catalog)@, request@),
        final(catalog).memtable.log_bytes() == old(catalog).memtable.log_bytes()
            + log_entry(request@),
        final(response)@ == response_for(old(catalog)@, request@, old(response)@),
{
    let write = logged_write(request);
    handle_logged(catalog_viewer, catalog, request, write, response)
}

/// Reads the chunk at the reader as one request. `None` stands for an
/// empty chunk and for the end of the source; bytes that spell no request
/// are an error.
pub fn read_request(reader: &mut ByteReader) -> (r: Result<Option<Request>, NaiveError>)
    ensures
        final(reader).bytes == old(reader).bytes,
        !chunk_is_whole(old(reader).remaining()) ==> {
            &&& r matches Err(e) && e == NaiveError::IoError(IoErrorKind::UnexpectedEof)
            &&& final(reader).remaining().len() == 0
        },
        chunk_is_whole(old(reader).remaining()) ==> {
            &&& final(reader).remaining() == after_chunk(old(reader).remaining())
            &&& if chunk_length(old(reader).remaining()) == 0 {
                r matches Ok(None)
            } else {
                match decode_request(chunk_payload(old(reader).remaining())) {
                    Some(request) => r matches Ok(Some(read)) && read@ == request,
                    None => r matches Err(e) && e == NaiveError::ProtobufError,
                }
            }
        },
{
    let mut bytes: Vec<u8> = Vec::new();
    let num_bytes = match read_chunk(reader, &mut bytes) {
        Ok(n) => n,
        Err(e) => {
            return Err(e);
        },
    };
    if num_bytes == 0 {
        return Ok(None);
    }
    match Request::parse_from_bytes(bytes.as_slice()) {
        Ok(request) => Ok(Some(request)),
        Err(e) => Err(e),
    }
}

/// Reads the chunk at the reader as one response. `None` stands for an
/// empty chunk and for the end of the source; bytes that spell no
/// response are an error.
pub fn read_response(reader: &mut ByteReader) -> (r: Result<Option<Response>, NaiveError>)
    ensures
        final(reader).bytes == old(reader).bytes,
        !chunk_is_whole(old(reader).remaining()) ==> {
            &&& r matches Err(e) && e == NaiveError::IoError(IoErrorKind::UnexpectedEof)
            &&& final(reader).remaining().len() == 0
        },
        chunk_is_whole(old(reader).remaining()) ==> {
            &&& final(reader).remaining() == after_chunk(old(reader).remaining())
            &&& if chunk_length(old(reader).remaining()) == 0 {
                r matches Ok(None)
            } else {
                match decode_response(chunk_payload(old(reader).remaining())) {
                    Some(response) => r matches Ok(Some(read)) && read@ == response,
                    None => r matches Err(e) && e == NaiveError::ProtobufError,
                }
            }
        },
{
    let mut bytes: Vec<u8> = Vec::new();
    let num_bytes = match read_chunk(reader, &mut bytes) {
        Ok(n) => n,
        Err(e) => {
            return Err(e);
        },
    };
    if num_bytes == 0 {
        return Ok(None);
    }
    match Response::parse_from_bytes(bytes.as_slice()) {
        Ok(response) => Ok(Some(response)),
        Err(e) => Err(e),
    }
}

/// Appends `request` to `writer` as one chunk. A request of too many
/// bytes is refused, and nothing is written.
pub fn write_request(request: &Request, writer: &mut Vec<u8>) -> (r: Result<(), NaiveError>)
    ensures
        request_fits(request@) ==> r is Ok && final(writer)@ == old(writer)@ + chunk(
            encode_request(request@),
        ),
        !request_fits(request@) ==> (r matches Err(e) && e == NaiveError::ProtobufError)
            && final(writer)@ == old(writer)@,
{
    let bytes = match request.write_to_bytes() {
        Ok(bytes) => bytes,
        Err(e) => {
            return Err(e);
        },
    };
    proof {
        crate::messages::lemma_decode_of_request(request@);
    }
    write_chunk(writer, bytes.as_slice())
}

/// Appends `response` to `writer` as one chunk. A response of too many
/// bytes is refused, and nothing is written.
pub fn write_response(response: &Response, writer: &mut Vec<u8>) -> (r: Result<(), NaiveError>)
    ensures
        response_fits(response@) ==> r is Ok && final(writer)@ == old(writer)@ + chunk(
            encode_response(response@),
        ),
        !response_fits(response@) ==> (r matches Err(e) && e == NaiveError::ProtobufError)
            && final(writer)@ == old(writer)@,
{
    let bytes = match response.write_to_bytes() {
        Ok(bytes) => bytes,
        Err(e) => {
            return Err(e);
        },
    };
    proof {
        crate::messages::lemma_decode_of_response(response@);
    }
    write_chunk(writer, bytes.as_slice())
}

} // verus!
