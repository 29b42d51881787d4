use naive_kv::catalog::{Catalog, CatalogViewer};
use naive_kv::messages::{Operation, Request, Response, Status};
use naive_kv::server::{
    handle_request, logged_write, read_request, read_response, write_request, write_response,
};
use naive_kv::types::{IoErrorKind, NaiveError};
use naive_kv::utils::ByteReader;
use naive_kv::NaiveKV;

fn request(id: u32, operation: Operation, key: &str, value: Option<&str>) -> Request {
    let mut request = Request::new();
    request.set_id(id);
    request.set_operation(operation);
    request.set_key(String::from(key));
    if let Some(value) = value {
        request.set_value(String::from(value));
    }
    request
}

fn answer(
    viewer: &mut CatalogViewer,
    catalog: &mut Catalog,
    request: &Request,
) -> Response {
    let mut response = Response::new();
    handle_request(viewer, catalog, request, &mut response);
    response
}

#[test]
fn a_new_request_and_a_new_response_are_empty() {
    let request = Request::new();
    assert_eq!(request.get_id(), 0);
    assert_eq!(request.get_operation(), Operation::GET);
    assert_eq!(request.get_key(), "");
    assert!(!request.has_value());
    assert_eq!(request.get_value(), "");
    let response = Response::new();
    assert_eq!(response.get_id(), 0);
    assert_eq!(response.get_status(), Status::OK);
    assert!(!response.has_value());
    assert!(!response.has_error());
    assert_eq!(response.get_value(), "");
    assert_eq!(response.get_error(), "");
}

#[test]
fn a_request_is_written_with_operation_flag_number_key_and_value() {
    let bytes = request(0x0102_0304, Operation::SET, "k", Some("vv"))
        .write_to_bytes()
        .unwrap();
    assert_eq!(
        bytes,
        vec![1, 1, 1, 2, 3, 4, 0, 0, 0, 1, b'k', 0, 0, 0, 2, b'v', b'v']
    );
    let bytes = request(7, Operation::GET, "key", None)
        .write_to_bytes()
        .unwrap();
    assert_eq!(bytes, vec![0, 0, 0, 0, 0, 7, 0, 0, 0, 3, b'k', b'e', b'y']);
    let bytes = request(1, Operation::REMOVE, "", None)
        .write_to_bytes()
        .unwrap();
    assert_eq!(bytes, vec![2, 0, 0, 0, 0, 1, 0, 0, 0, 0]);
}

#[test]
fn a_response_is_written_with_status_flags_number_value_and_error() {
    let mut response = Response::new();
    response.set_id(258);
    response.set_status(Status::INTERNAL_ERROR);
    assert_eq!(
        response.write_to_bytes().unwrap(),
        vec![4, 0, 0, 0, 0, 1, 2]
    );
    response.set_error(String::from("e"));
    assert_eq!(
        response.write_to_bytes().unwrap(),
        vec![4, 0, 1, 0, 0, 1, 2, 0, 0, 0, 1, b'e']
    );
    response.set_value(String::from("va"));
    response.set_status(Status::KEY_NOT_FOUND);
    assert_eq!(
        response.write_to_bytes().unwrap(),
        vec![1, 1, 1, 0, 0, 1, 2, 0, 0, 0, 2, b'v', b'a', 0, 0, 0, 1, b'e']
    );
}

#[test]
fn requests_and_responses_are_read_back() {
    for request in [
        request(1, Operation::GET, "key", None),
        request(2, Operation::SET, "key", Some("value")),
        request(3, Operation::SET, "ключ", Some("")),
        request(u32::MAX, Operation::REMOVE, "", None),
        request(5, Operation::GET, "with a value", Some("v")),
    ] {
        let bytes = request.write_to_bytes().unwrap();
        assert_eq!(Request::parse_from_bytes(&bytes), Ok(request));
    }
    for status in [
        Status::OK,
        Status::KEY_NOT_FOUND,
        Status::VALUE_MISSING,
        Status::OPERATION_NOT_SUPPORTED,
        Status::INTERNAL_ERROR,
    ] {
        for (value, error) in [
            (None, None),
            (Some("v"), None),
            (None, Some("e")),
            (Some("значение"), Some("")),
        ] {
            let mut response = Response::new();
            response.set_id(77);
            response.set_status(status);
            if let Some(value) = value {
                response.set_value(String::from(value));
            }
            if let Some(error) = error {
                response.set_error(String::from(error));
            }
            let bytes = response.write_to_bytes().unwrap();
            assert_eq!(Response::parse_from_bytes(&bytes), Ok(response));
        }
    }
}

#[test]
fn bytes_that_spell_no_request_are_refused() {
    let good = request(9, Operation::SET, "key", Some("value"))
        .write_to_bytes()
        .unwrap();
    let refused = |bytes: &[u8]| Request::parse_from_bytes(bytes) == Err(NaiveError::ProtobufError);
    assert!(refused(&[]));
    assert!(refused(&good[..5]));
    assert!(refused(&good[..good.len() - 1]));
    let mut longer = good.clone();
    longer.push(0);
    assert!(refused(&longer));
    let mut bad_operation = good.clone();
    bad_operation[0] = 3;
    assert!(refused(&bad_operation));
    let mut bad_flag = good.clone();
    bad_flag[1] = 2;
    assert!(refused(&bad_flag));
    let mut no_value = good.clone();
    no_value[1] = 0;
    assert!(refused(&no_value));
    let mut bad_key = good.clone();
    bad_key[10] = 0xff;
    assert!(refused(&bad_key));
    let mut long_key = good;
    long_key[9] = 200;
    assert!(refused(&long_key));
}

#[test]
fn bytes_that_spell_no_response_are_refused() {
    let mut response = Response::new();
    response.set_value(String::from("value"));
    let good = response.write_to_bytes().unwrap();
    let refused =
        |bytes: &[u8]| Response::parse_from_bytes(bytes) == Err(NaiveError::ProtobufError);
    assert!(refused(&[]));
    assert!(refused(&good[..6]));
    assert!(refused(&good[..good.len() - 1]));
    let mut bad_status = good.clone();
    bad_status[0] = 5;
    assert!(refused(&bad_status));
    let mut bad_flag = good.clone();
    bad_flag[2] = 9;
    assert!(refused(&bad_flag));
    let mut missing_error = good.clone();
    missing_error[2] = 1;
    assert!(refused(&missing_error));
    let mut bad_value = good;
    let last = bad_value.len() - 1;
    bad_value[last] = 0x80;
    assert!(refused(&bad_value));
}

#[test]
fn requests_and_responses_travel_as_chunks() {
    let mut wire = Vec::new();
    let first = request(1, Operation::SET, "k", Some("v"));
    let second = request(2, Operation::GET, "k", None);
    write_request(&first, &mut wire).unwrap();
    assert_eq!(
        wire,
        vec![0, 0, 0, 16, 1, 1, 0, 0, 0, 1, 0, 0, 0, 1, b'k', 0, 0, 0, 1, b'v']
    );
    write_request(&second, &mut wire).unwrap();
    let mut reader = ByteReader::new(&wire);
    assert_eq!(read_request(&mut reader), Ok(Some(first)));
    assert_eq!(read_request(&mut reader), Ok(Some(second)));
    assert_eq!(read_request(&mut reader), Ok(None));

    let mut wire = Vec::new();
    let mut response = Response::new();
    response.set_id(2);
    response.set_value(String::from("v"));
    write_response(&response, &mut wire).unwrap();
    assert_eq!(wire, vec![0, 0, 0, 12, 0, 1, 0, 0, 0, 0, 2, 0, 0, 0, 1, b'v']);
    let mut reader = ByteReader::new(&wire);
    assert_eq!(read_response(&mut reader), Ok(Some(response)));
    assert_eq!(read_response(&mut reader), Ok(None));

    let cut = &wire[..wire.len() - 1];
    let mut reader = ByteReader::new(cut);
    assert_eq!(
        read_response(&mut reader),
        Err(NaiveError::IoError(IoErrorKind::UnexpectedEof))
    );
    let garbage = [0, 0, 0, 1, 9];
    let mut reader = ByteReader::new(&garbage);
    assert_eq!(read_request(&mut reader), Err(NaiveError::ProtobufError));
    let mut reader = ByteReader::new(&garbage);
    assert_eq!(read_response(&mut reader), Err(NaiveError::ProtobufError));
}

#[test]
fn a_get_finds_what_was_set_and_nothing_else() {
    let mut catalog = Catalog::open(String::from("data"), Vec::new()).unwrap();
    let mut viewer = CatalogViewer::new(&catalog).unwrap();
    let response = answer(&mut viewer, &mut catalog, &request(1, Operation::GET, "k", None));
    assert_eq!(response.get_id(), 1);
    assert_eq!(response.get_status(), Status::KEY_NOT_FOUND);
    assert!(!response.has_value());

    let response = answer(
        &mut viewer,
        &mut catalog,
        &request(2, Operation::SET, "k", Some("v")),
    );
    assert_eq!(response.get_id(), 2);
    assert_eq!(response.get_status(), Status::OK);
    assert!(!response.has_value());

    let response = answer(&mut viewer, &mut catalog, &request(3, Operation::GET, "k", None));
    assert_eq!(response.get_id(), 3);
    assert_eq!(response.get_status(), Status::OK);
    assert!(response.has_value());
    assert_eq!(response.get_value(), "v");
    assert!(!response.has_error());

    let response = answer(
        &mut viewer,
        &mut catalog,
        &request(4, Operation::REMOVE, "k", None),
    );
    assert_eq!(response.get_id(), 4);
    assert_eq!(response.get_status(), Status::OK);

    let response = answer(&mut viewer, &mut catalog, &request(5, Operation::GET, "k", None));
    assert_eq!(response.get_status(), Status::KEY_NOT_FOUND);
    assert!(!response.has_value());
}

#[test]
fn a_set_without_value_misses_its_value_and_changes_nothing() {
    let mut catalog = Catalog::open(String::from("data"), Vec::new()).unwrap();
    let mut viewer = CatalogViewer::new(&catalog).unwrap();
    answer(
        &mut viewer,
        &mut catalog,
        &request(1, Operation::SET, "k", Some("v")),
    );
    let size = catalog.memtable.data_size();
    let response = answer(&mut viewer, &mut catalog, &request(2, Operation::SET, "k", None));
    assert_eq!(response.get_id(), 2);
    assert_eq!(response.get_status(), Status::VALUE_MISSING);
    assert_eq!(catalog.memtable.data_size(), size);
    assert_eq!(viewer.get(&catalog, "k").unwrap(), Some(String::from("v")));
}

#[test]
fn a_response_keeps_what_a_request_does_not_fill_in() {
    let mut catalog = Catalog::open(String::from("data"), Vec::new()).unwrap();
    let mut viewer = CatalogViewer::new(&catalog).unwrap();
    let mut response = Response::new();
    response.set_error(String::from("earlier"));
    response.set_value(String::from("stale"));
    response.set_status(Status::INTERNAL_ERROR);
    handle_request(
        &mut viewer,
        &mut catalog,
        &request(8, Operation::GET, "absent", None),
        &mut response,
    );
    assert_eq!(response.get_id(), 8);
    assert_eq!(response.get_status(), Status::KEY_NOT_FOUND);
    assert_eq!(response.get_value(), "stale");
    assert_eq!(response.get_error(), "earlier");
}

#[test]
fn a_write_is_logged_as_the_message_of_its_command() {
    let entry = |request: &Request| logged_write(request).map(|write| write.entry().clone());
    assert_eq!(entry(&request(1, Operation::GET, "k", None)), None);
    assert_eq!(entry(&request(1, Operation::GET, "k", Some("v"))), None);
    assert_eq!(entry(&request(1, Operation::SET, "k", None)), None);
    assert_eq!(
        entry(&request(1, Operation::SET, "k", Some("v"))),
        Some(vec![0, 0, 0, 12, 0, 1, 0, 0, 0, 1, b'k', 0, 0, 0, 1, b'v'])
    );
    assert_eq!(
        entry(&request(1, Operation::REMOVE, "k", None)),
        Some(vec![0, 0, 0, 7, 1, 0, 0, 0, 0, 1, b'k'])
    );
    // The value of a request to remove is not logged.
    assert_eq!(
        entry(&request(1, Operation::REMOVE, "k", Some("v"))),
        Some(vec![0, 0, 0, 7, 1, 0, 0, 0, 0, 1, b'k'])
    );
}

#[test]
fn what_a_request_logs_is_what_the_log_grows_by() {
    let mut engine = NaiveKV::open(String::from("data"), Vec::new(), 1024, 8, 1).unwrap();
    let mut viewer = engine.catalog_viewer().unwrap();
    let mut expected = Vec::new();
    for (i, request) in [
        request(1, Operation::SET, "a", Some("1")),
        request(2, Operation::GET, "a", None),
        request(3, Operation::SET, "b", None),
        request(4, Operation::REMOVE, "a", None),
        request(5, Operation::REMOVE, "never set", None),
        request(6, Operation::SET, "a", Some("2")),
    ]
    .iter()
    .enumerate()
    {
        if let Some(write) = logged_write(request) {
            expected.extend_from_slice(write.entry());
        }
        let mut response = Response::new();
        engine.handle_request(&mut viewer, request, &mut response);
        assert_eq!(response.get_id() as usize, i + 1);
        assert_eq!(engine.catalog().memtable.log(), &expected);
    }
    assert_eq!(expected.len(), 16 + 11 + 19 + 16);
    assert_eq!(engine.get(&mut viewer, "a").unwrap(), Some(String::from("2")));
    assert_eq!(engine.get(&mut viewer, "b").unwrap(), None);
}

#[test]
fn a_request_is_answered_alike_whoever_logs_its_write() {
    let requests = [
        request(1, Operation::SET, "a", Some("1")),
        request(2, Operation::GET, "a", None),
        request(3, Operation::GET, "b", None),
        request(4, Operation::SET, "b", None),
        request(5, Operation::REMOVE, "a", None),
        request(6, Operation::GET, "a", None),
    ];
    let mut direct = NaiveKV::open(String::from("data"), Vec::new(), 1024, 8, 1).unwrap();
    let mut direct_viewer = direct.catalog_viewer().unwrap();
    let mut stepwise = NaiveKV::open(String::from("data"), Vec::new(), 1024, 8, 1).unwrap();
    let mut stepwise_viewer = stepwise.catalog_viewer().unwrap();
    let expected = [
        (Status::OK, None),
        (Status::OK, Some("1")),
        (Status::KEY_NOT_FOUND, None),
        (Status::VALUE_MISSING, None),
        (Status::OK, None),
        (Status::KEY_NOT_FOUND, None),
    ];
    for (request, (status, value)) in requests.iter().zip(expected) {
        let mut first = Response::new();
        direct.handle_request(&mut direct_viewer, request, &mut first);
        let mut second = Response::new();
        if request.get_operation() == Operation::GET {
            stepwise.handle_get(&mut stepwise_viewer, request, &mut second);
        } else {
            let write = logged_write(request);
            stepwise.handle_logged(&mut stepwise_viewer, request, write, &mut second);
        }
        assert_eq!(first, second);
        assert_eq!(first.get_id(), request.get_id());
        assert_eq!(first.get_status(), status);
        assert_eq!(first.has_value(), value.is_some());
        assert_eq!(first.get_value(), value.unwrap_or(""));
        assert_eq!(
            direct.catalog().memtable.log(),
            stepwise.catalog().memtable.log()
        );
    }
}
