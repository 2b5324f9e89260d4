//! The argument cursor over a decoded array's elements.
use walrus::db::Data;
use walrus::frame::Frame;
use walrus::parse::{Parse, ParseError};

fn cursor(parts: Vec<Frame>) -> Parse {
    Parse::new(Frame::Array(parts)).expect("an array frame")
}

#[test]
fn cursor_refuses_non_arrays() {
    match Parse::new(Frame::Integer(1)) {
        Err(ParseError::NotArray) => {}
        other => panic!("got {other:?}", other = other.err()),
    }
}

#[test]
fn next_bytes_accepts_simple_and_bulk() {
    let mut p = cursor(vec![
        Frame::Simple(b"a".to_vec()),
        Frame::Bulk(b"b".to_vec()),
        Frame::Integer(1),
    ]);
    assert_eq!(p.next_bytes(), Ok(b"a".to_vec()));
    assert_eq!(p.next_bytes(), Ok(b"b".to_vec()));
    assert_eq!(p.next_bytes(), Err(ParseError::WrongType));
    assert_eq!(p.next_bytes(), Err(ParseError::EndOfStream));
}

#[test]
fn next_string_wants_utf8() {
    let mut p = cursor(vec![
        Frame::Bulk(b"text".to_vec()),
        Frame::Bulk(vec![0xff]),
    ]);
    assert_eq!(p.next_string(), Ok(b"text".to_vec()));
    assert_eq!(p.next_string(), Err(ParseError::InvalidUtf8));
}

#[test]
fn next_int_reads_numbers_three_ways() {
    let mut p = cursor(vec![
        Frame::Integer(7),
        Frame::Simple(b"42".to_vec()),
        Frame::Bulk(b"0042".to_vec()),
        Frame::Bulk(b"x".to_vec()),
    ]);
    assert_eq!(p.next_int(), Ok(7));
    assert_eq!(p.next_int(), Ok(42));
    assert_eq!(p.next_int(), Ok(42));
    assert_eq!(p.next_int(), Err(ParseError::InvalidNumber));
    assert_eq!(p.next_int(), Err(ParseError::EndOfStream));
}

#[test]
fn next_array_consumes_the_remainder() {
    let mut p = cursor(vec![
        Frame::Simple(b"one".to_vec()),
        Frame::Integer(2),
        Frame::Bulk(b"three".to_vec()),
    ]);
    let items = p.next_array().expect("all items convertible");
    assert_eq!(
        items,
        vec![
            Data::String(b"one".to_vec()),
            Data::Integer(2),
            Data::Bytes(b"three".to_vec()),
        ]
    );
    assert_eq!(p.next_bytes(), Err(ParseError::EndOfStream));
}

#[test]
fn next_array_refuses_odd_elements() {
    let mut p = cursor(vec![Frame::Integer(1), Frame::Null]);
    assert_eq!(p.next_array().unwrap_err(), ParseError::WrongType);
}
