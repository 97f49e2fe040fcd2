//! The wire-protocol codec, byte for byte.

use p_rudis::frame::{Error, Frame};

fn roundtrip(f: Frame) -> Frame {
    let bytes = f.to_bytes().expect("serializable");
    let mut pos: usize = 0;
    let parsed = Frame::parse(&bytes, &mut pos).expect("parses");
    assert_eq!(pos, bytes.len());
    parsed
}

#[test]
fn simple_round_trip() {
    let f = roundtrip(Frame::Simple(String::from("OK")));
    assert_eq!(f, Frame::Simple(String::from("OK")));
}

#[test]
fn error_round_trip() {
    let f = roundtrip(Frame::Error(String::from("ERR boom")));
    assert_eq!(f, Frame::Error(String::from("ERR boom")));
}

#[test]
fn integer_round_trip() {
    assert_eq!(roundtrip(Frame::Integer(1000)), Frame::Integer(1000));
    assert_eq!(roundtrip(Frame::Integer(-42)), Frame::Integer(-42));
    assert_eq!(roundtrip(Frame::Integer(i64::MIN)), Frame::Integer(i64::MIN));
    assert_eq!(roundtrip(Frame::Integer(i64::MAX)), Frame::Integer(i64::MAX));
}

#[test]
fn bulk_round_trip() {
    let f = roundtrip(Frame::Bulk(b"hello\r\nworld".to_vec()));
    assert_eq!(f, Frame::Bulk(b"hello\r\nworld".to_vec()));
}

#[test]
fn null_round_trip() {
    assert_eq!(roundtrip(Frame::Null), Frame::Null);
}

#[test]
fn array_round_trip() {
    let f = Frame::Array(vec![
        Frame::Bulk(b"set".to_vec()),
        Frame::Bulk(b"foo".to_vec()),
        Frame::Integer(7),
        Frame::Null,
        Frame::Array(vec![Frame::Simple(String::from("x"))]),
    ]);
    let g = Frame::Array(vec![
        Frame::Bulk(b"set".to_vec()),
        Frame::Bulk(b"foo".to_vec()),
        Frame::Integer(7),
        Frame::Null,
        Frame::Array(vec![Frame::Simple(String::from("x"))]),
    ]);
    assert_eq!(roundtrip(f), g);
}

#[test]
fn serialized_forms() {
    assert_eq!(
        Frame::Simple(String::from("PONG")).to_bytes().unwrap(),
        b"+PONG\r\n".to_vec()
    );
    assert_eq!(
        Frame::Error(String::from("ERR x")).to_bytes().unwrap(),
        b"-ERR x\r\n".to_vec()
    );
    assert_eq!(Frame::Integer(-12).to_bytes().unwrap(), b":-12\r\n".to_vec());
    assert_eq!(
        Frame::Bulk(b"abc".to_vec()).to_bytes().unwrap(),
        b"$3\r\nabc\r\n".to_vec()
    );
    assert_eq!(Frame::Null.to_bytes().unwrap(), b"$-1\r\n".to_vec());
    assert_eq!(
        Frame::Array(vec![Frame::Bulk(b"a".to_vec()), Frame::Bulk(b"bc".to_vec())])
            .to_bytes()
            .unwrap(),
        b"*2\r\n$1\r\na\r\n$2\r\nbc\r\n".to_vec()
    );
    assert!(Frame::NoResponse.to_bytes().is_none());
}

#[test]
fn check_finds_first_frame_extent() {
    let mut bytes = b"*2\r\n$3\r\nfoo\r\n$3\r\nbar\r\n".to_vec();
    let complete = bytes.len();
    bytes.extend_from_slice(b"*1\r\n$3\r\nba");
    let mut pos: usize = 0;
    assert!(Frame::check(&bytes, &mut pos).is_ok());
    assert_eq!(pos, complete);
    let mut pos2: usize = complete;
    assert_eq!(Frame::check(&bytes, &mut pos2), Err(Error::NoMoreData));
}

#[test]
fn check_partial_bulk_wants_more() {
    let bytes = b"$10\r\nabc".to_vec();
    let mut pos: usize = 0;
    assert_eq!(Frame::check(&bytes, &mut pos), Err(Error::NoMoreData));
}

#[test]
fn not_number_error() {
    let bytes = b"$ab\r\n".to_vec();
    let mut pos: usize = 0;
    assert_eq!(Frame::check(&bytes, &mut pos), Err(Error::NotNumber));
}

#[test]
fn overflow_error() {
    let bytes = b":99999999999999999999\r\n".to_vec();
    let mut pos: usize = 0;
    assert_eq!(Frame::check(&bytes, &mut pos), Err(Error::OverFlow));
}

#[test]
fn type_conversion_error_on_bad_utf8() {
    let bytes = vec![b'+', 0xff, 0xfe, b'\r', b'\n'];
    let mut pos: usize = 0;
    assert_eq!(Frame::parse(&bytes, &mut pos), Err(Error::TypeConversionError));
}

#[test]
fn unresp_error_on_unknown_marker() {
    let bytes = b"%3\r\n".to_vec();
    let mut pos: usize = 0;
    assert_eq!(Frame::check(&bytes, &mut pos), Err(Error::UnRESP));
}

#[test]
fn unresp_error_on_bad_null() {
    let bytes = b"$-2\r\n".to_vec();
    let mut pos: usize = 0;
    assert_eq!(Frame::parse(&bytes, &mut pos), Err(Error::UnRESP));
}

#[test]
fn decimal_rendering() {
    assert_eq!(p_rudis::frame::u64_to_string(0), "0");
    assert_eq!(p_rudis::frame::u64_to_string(90710), "90710");
    assert_eq!(p_rudis::frame::i64_to_string(-407), "-407");
    assert_eq!(p_rudis::frame::i64_to_string(i64::MIN), "-9223372036854775808");
}
