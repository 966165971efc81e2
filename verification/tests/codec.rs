//! The record codec on concrete bytes.

use kvs::codec::{copy_range, decode_entry, encode_entry};
use kvs::entry::Entry;
use kvs::error::Error;
use kvs::numeral::{pow10_u64, push_dec20, read_dec20};
use kvs::store::log_file_name;

#[test]
fn put_record_bytes() {
    let e = Entry::init_set("a".to_string(), "1".to_string());
    let bytes = encode_entry(&e);
    assert_eq!(
        bytes,
        b"S 00000000000000000001 a 00000000000000000001 1\n".to_vec()
    );
}

#[test]
fn rm_record_bytes() {
    let e = Entry::init_rm("key".to_string());
    let bytes = encode_entry(&e);
    assert_eq!(bytes, b"R 00000000000000000003 key\n".to_vec());
}

#[test]
fn entry_round_trip() {
    let put = Entry::Put { key: "some key".to_string(), val: "some value\n R ".to_string() };
    let rm = Entry::Rm { key: "gone".to_string() };
    let mut log = encode_entry(&put);
    let first_len = log.len();
    let mut second = encode_entry(&rm);
    log.append(&mut second);
    match decode_entry(&log, 0).unwrap() {
        (Entry::Put { key, val }, n) => {
            assert_eq!(key, "some key");
            assert_eq!(val, "some value\n R ");
            assert_eq!(n, first_len);
        }
        _ => panic!("first record must decode as a write"),
    }
    match decode_entry(&log, first_len).unwrap() {
        (Entry::Rm { key }, _) => assert_eq!(key, "gone"),
        _ => panic!("second record must decode as a removal"),
    }
}

#[test]
fn decode_rejects_garbage() {
    let garbage = b"X 123".to_vec();
    match decode_entry(&garbage, 0) {
        Err(Error::CorruptLog) => {}
        _ => panic!("garbage must fail decoding with a corrupt-log error"),
    }
    let bad_digits = b"R 000000000000000000xx key\n".to_vec();
    match decode_entry(&bad_digits, 0) {
        Err(Error::CorruptLog) => {}
        _ => panic!("a malformed length field must fail decoding"),
    }
    let short = b"R 00000000000000000009 key\n".to_vec();
    match decode_entry(&short, 0) {
        Err(Error::CorruptLog) => {}
        _ => panic!("a length past the buffer must fail decoding"),
    }
}

#[test]
fn numeral_round_trip() {
    let mut buf: Vec<u8> = Vec::new();
    push_dec20(&mut buf, 1234567890123456789);
    assert_eq!(buf, b"01234567890123456789".to_vec());
    assert_eq!(read_dec20(&buf, 0), Some(1234567890123456789));
    let not_digits = b"0123456789012345678x".to_vec();
    assert_eq!(read_dec20(&not_digits, 0), None);
    assert_eq!(pow10_u64(0), 1);
    assert_eq!(pow10_u64(19), 10_000_000_000_000_000_000);
}

#[test]
fn copy_range_extracts_bytes() {
    let data = b"abcdef".to_vec();
    assert_eq!(copy_range(&data, 2, 5), b"cde".to_vec());
    assert_eq!(copy_range(&data, 0, 0), Vec::<u8>::new());
}

#[test]
fn segment_file_names() {
    assert_eq!(log_file_name(1), "1.log");
    assert_eq!(log_file_name(42), "42.log");
    assert_eq!(log_file_name(4294967295), "4294967295.log");
}
