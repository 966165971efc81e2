//! The wire codec and the request dispatcher.

use kvs::resource::{
    decode_request, decode_request_partial, decode_response, encode_request, encode_response,
    RequestProgress,
};
use kvs::server::handle_request;
use kvs::store::KvStore;
use kvs::{Error, Request, Response};

#[test]
fn request_bytes() {
    let get = Request::Get { key: "a".to_string() };
    assert_eq!(encode_request(&get), b"G 00000000000000000001 a\n".to_vec());
    let put = Request::Put { key: "a".to_string(), val: "1".to_string() };
    assert_eq!(
        encode_request(&put),
        b"S 00000000000000000001 a 00000000000000000001 1\n".to_vec()
    );
    let rm = Request::Rm { key: "a".to_string() };
    assert_eq!(encode_request(&rm), b"R 00000000000000000001 a\n".to_vec());
}

#[test]
fn request_round_trip() {
    let reqs = vec![
        Request::Get { key: "what is here".to_string() },
        Request::Put { key: "k".to_string(), val: "value with \n inside".to_string() },
        Request::Rm { key: "".to_string() },
    ];
    let mut wire: Vec<u8> = Vec::new();
    for r in &reqs {
        wire.extend(encode_request(r));
    }
    let mut at = 0;
    let (r0, n0) = decode_request(&wire, at).unwrap();
    at += n0;
    let (r1, n1) = decode_request(&wire, at).unwrap();
    at += n1;
    let (r2, n2) = decode_request(&wire, at).unwrap();
    at += n2;
    assert_eq!(at, wire.len());
    match r0 {
        Request::Get { key } => assert_eq!(key, "what is here"),
        _ => panic!("first message must decode as a read"),
    }
    match r1 {
        Request::Put { key, val } => {
            assert_eq!(key, "k");
            assert_eq!(val, "value with \n inside");
        }
        _ => panic!("second message must decode as a write"),
    }
    match r2 {
        Request::Rm { key } => assert_eq!(key, ""),
        _ => panic!("third message must decode as a removal"),
    }
}

#[test]
fn response_round_trip() {
    let none = Response::Value(None);
    assert_eq!(encode_response(&none), b"N\n".to_vec());
    let some = Response::Value(Some("hello".to_string()));
    assert_eq!(
        encode_response(&some),
        b"V 00000000000000000005 hello\n".to_vec()
    );
    let fail = Response::Failure("Key not found".to_string());
    let wire = encode_response(&fail);
    assert_eq!(wire, b"E 00000000000000000013 Key not found\n".to_vec());
    match decode_response(&wire, 0).unwrap() {
        (Response::Failure(m), n) => {
            assert_eq!(m, "Key not found");
            assert_eq!(n, wire.len());
        }
        _ => panic!("the message must decode as a failure"),
    }
    match decode_response(&encode_response(&some), 0).unwrap() {
        (Response::Value(Some(v)), _) => assert_eq!(v, "hello"),
        _ => panic!("the message must decode as a value"),
    }
    match decode_response(&encode_response(&none), 0).unwrap() {
        (Response::Value(None), n) => assert_eq!(n, 2),
        _ => panic!("the message must decode as an empty value"),
    }
}

#[test]
fn decode_rejects_ill_formed_messages() {
    match decode_request(&b"Q 00000000000000000001 a\n".to_vec(), 0) {
        Err(Error::Protocol) => {}
        _ => panic!("an unknown tag must fail with a protocol error"),
    }
    match decode_response(&b"N?".to_vec(), 0) {
        Err(Error::Protocol) => {}
        _ => panic!("a malformed empty-value message must fail with a protocol error"),
    }
}

#[test]
fn partial_decoding_classifies_buffers() {
    let wire = encode_request(&Request::Put { key: "key".to_string(), val: "value".to_string() });
    // Feeding the message byte by byte stays partial until it is whole.
    let mut buffer: Vec<u8> = Vec::new();
    for (i, b) in wire.iter().enumerate() {
        buffer.push(*b);
        match decode_request_partial(&buffer) {
            RequestProgress::Done(Request::Put { key, val }, n) => {
                assert_eq!(i + 1, wire.len(), "done only once the message is whole");
                assert_eq!(n, wire.len());
                assert_eq!(key, "key");
                assert_eq!(val, "value");
            }
            RequestProgress::Partial => {
                assert!(i + 1 < wire.len(), "a whole message must not stay partial");
            }
            _ => panic!("a prefix of a well-formed message is never rejected"),
        }
    }
    // A byte that no extension can repair is rejected at once.
    match decode_request_partial(&b"Q".to_vec()) {
        RequestProgress::Bad => {}
        _ => panic!("an unknown tag must be rejected"),
    }
    match decode_request_partial(&b"G x".to_vec()) {
        RequestProgress::Bad => {}
        _ => panic!("a non-digit length byte must be rejected"),
    }
    match decode_request_partial(&b"R 00000000000000000001 ab".to_vec()) {
        RequestProgress::Bad => {}
        _ => panic!("a missing terminator must be rejected"),
    }
    match decode_request_partial(&Vec::new()) {
        RequestProgress::Partial => {}
        _ => panic!("an empty buffer may still grow into a message"),
    }
}

#[test]
fn error_messages() {
    assert_eq!(Error::Io("disk gone".to_string()).message(), "disk gone");
    assert_eq!(Error::CorruptLog.message(), "corrupt log");
    assert_eq!(Error::DoesNotExist { key: "a".to_string() }.message(), "Key not found");
    assert_eq!(Error::Protocol.message(), "protocol error");
    assert_eq!(Error::UnhandledError("odd".to_string()).message(), "odd");
}

#[test]
fn dispatch_maps_engine_results() {
    let mut st = KvStore::open(Vec::new()).unwrap();
    match handle_request(&mut st, Request::Get { key: "a".to_string() }) {
        Response::Value(None) => {}
        _ => panic!("a read of an absent key must answer an empty value"),
    }
    match handle_request(&mut st, Request::Put { key: "a".to_string(), val: "1".to_string() }) {
        Response::Value(None) => {}
        _ => panic!("a completed write must answer an empty value"),
    }
    match handle_request(&mut st, Request::Get { key: "a".to_string() }) {
        Response::Value(Some(v)) => assert_eq!(v, "1"),
        _ => panic!("a read must answer the stored value"),
    }
    match handle_request(&mut st, Request::Rm { key: "missing".to_string() }) {
        Response::Failure(m) => assert_eq!(m, "Key not found"),
        _ => panic!("removing an absent key must answer the spelled-out failure"),
    }
    match handle_request(&mut st, Request::Rm { key: "a".to_string() }) {
        Response::Value(None) => {}
        _ => panic!("a completed removal must answer an empty value"),
    }
    match handle_request(&mut st, Request::Get { key: "a".to_string() }) {
        Response::Value(None) => {}
        _ => panic!("a removed key must read as an empty value"),
    }
}
