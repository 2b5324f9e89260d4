//! Byte-exact tests of the frame codec: encoding, scanning, parsing,
//! truncation, and the malformed cases.
use walrus::frame::{Error, Frame, ProtocolError};

fn encode(f: &Frame) -> Vec<u8> {
    f.encode()
}

fn parse_all(bytes: &[u8]) -> (Frame, usize) {
    Frame::check(bytes, 0).expect("check should accept");
    Frame::parse(bytes, 0).expect("parse should accept")
}

#[test]
fn encode_simple() {
    let f = Frame::Simple(b"OK".to_vec());
    assert_eq!(encode(&f), b"+OK\r\n".to_vec());
}

#[test]
fn encode_error() {
    let f = Frame::Error(b"oops".to_vec());
    assert_eq!(encode(&f), b"-oops\r\n".to_vec());
}

#[test]
fn encode_integer() {
    assert_eq!(encode(&Frame::Integer(0)), b":0\r\n".to_vec());
    assert_eq!(encode(&Frame::Integer(123)), b":123\r\n".to_vec());
    assert_eq!(
        encode(&Frame::Integer(u64::MAX)),
        b":18446744073709551615\r\n".to_vec()
    );
}

#[test]
fn encode_null() {
    assert_eq!(encode(&Frame::Null), b"$-1\r\n".to_vec());
}

#[test]
fn encode_bulk() {
    let f = Frame::Bulk(b"hello\nworld".to_vec());
    assert_eq!(encode(&f), b"$11\r\nhello\nworld\r\n".to_vec());
}

#[test]
fn encode_array() {
    let f = Frame::Array(vec![
        Frame::Simple(b"get".to_vec()),
        Frame::Bulk(b"k1".to_vec()),
        Frame::Integer(7),
        Frame::Null,
    ]);
    assert_eq!(encode(&f), b"*4\r\n+get\r\n$2\r\nk1\r\n:7\r\n$-1\r\n".to_vec());
}

#[test]
fn round_trip_each_variant() {
    let frames = vec![
        Frame::Simple(b"PONG".to_vec()),
        Frame::Error(b"bad thing".to_vec()),
        Frame::Integer(42),
        Frame::Null,
        Frame::Bulk(b"value1 value2 value3 value4".to_vec()),
        Frame::Array(vec![
            Frame::Simple(b"rpush".to_vec()),
            Frame::Bulk(b"list1".to_vec()),
            Frame::Integer(1),
        ]),
    ];
    for f in frames {
        let bytes = f.encode();
        let end = Frame::check(&bytes, 0).expect("complete frame");
        assert_eq!(end, bytes.len());
        let (back, consumed) = Frame::parse(&bytes, 0).expect("parses");
        assert_eq!(consumed, bytes.len());
        assert_eq!(back, f);
    }
}

#[test]
fn every_strict_prefix_is_incomplete() {
    let frames = vec![
        Frame::Simple(b"PONG".to_vec()),
        Frame::Integer(1234),
        Frame::Null,
        Frame::Bulk(b"abc".to_vec()),
        Frame::Array(vec![Frame::Bulk(b"x".to_vec()), Frame::Integer(5)]),
    ];
    for f in frames {
        let bytes = f.encode();
        for k in 0..bytes.len() {
            match Frame::check(&bytes[..k], 0) {
                Err(Error::Incomplete) => {}
                other => panic!("prefix {k} of {bytes:?} gave {other:?}"),
            }
        }
    }
}

#[test]
fn parse_leaves_following_bytes() {
    let mut bytes = Frame::Simple(b"one".to_vec()).encode();
    bytes.extend_from_slice(&Frame::Integer(2).encode());
    let (f1, n1) = parse_all(&bytes);
    assert_eq!(f1, Frame::Simple(b"one".to_vec()));
    let (f2, n2) = Frame::parse(&bytes, n1).expect("second frame");
    assert_eq!(f2, Frame::Integer(2));
    assert_eq!(n2, bytes.len());
}

#[test]
fn bad_type_byte_is_malformed() {
    match Frame::check(b"^oops\r\n", 0) {
        Err(Error::Other(ProtocolError::InvalidTypeByte)) => {}
        other => panic!("got {other:?}"),
    }
}

#[test]
fn integer_line_quirks() {
    // Trailing junk after the digits is ignored by the decimal reader.
    let (f, _) = parse_all(b":12abc\r\n");
    assert_eq!(f, Frame::Integer(12));
    // A sign alone or minus-zero reads as zero.
    let (f, _) = parse_all(b":-0\r\n");
    assert_eq!(f, Frame::Integer(0));
    let (f, _) = parse_all(b":+42\r\n");
    assert_eq!(f, Frame::Integer(42));
    // No digits at all is malformed.
    match Frame::check(b":zzz\r\n", 0) {
        Err(Error::Other(ProtocolError::InvalidFormat)) => {}
        other => panic!("got {other:?}"),
    }
    // A minus before a non-zero value has no unsigned reading.
    match Frame::check(b":-7\r\n", 0) {
        Err(Error::Other(ProtocolError::InvalidFormat)) => {}
        other => panic!("got {other:?}"),
    }
    // Overflow past 64 bits is malformed.
    match Frame::check(b":18446744073709551616\r\n", 0) {
        Err(Error::Other(ProtocolError::InvalidFormat)) => {}
        other => panic!("got {other:?}"),
    }
}

#[test]
fn null_marker_must_be_minus_one() {
    // A negative-looking marker line other than exactly "-1" is a
    // protocol error for the scan and the parse alike.
    for bytes in [&b"$-2\r\n"[..], b"$-1x\r\n", b"*-0\r\n"] {
        match Frame::check(bytes, 0) {
            Err(Error::Other(ProtocolError::InvalidFormat)) => {}
            other => panic!("check of {bytes:?} gave {other:?}"),
        }
        match Frame::parse(bytes, 0) {
            Err(Error::Other(ProtocolError::InvalidFormat)) => {}
            other => panic!("parse of {bytes:?} gave {other:?}"),
        }
    }
    // The exact marker decodes to the null frame under either tag.
    for bytes in [&b"$-1\r\n"[..], b"*-1\r\n"] {
        assert_eq!(Frame::check(bytes, 0).expect("complete"), 5);
        let (f, n) = Frame::parse(bytes, 0).expect("well-formed");
        assert_eq!((f, n), (Frame::Null, 5));
    }
    // A partial marker line is incomplete, not malformed.
    for bytes in [&b"$-"[..], b"$-1", b"$-1\r", b"$-2", b"$-1\r\r"] {
        match Frame::check(bytes, 0) {
            Err(Error::Incomplete) => {}
            other => panic!("check of {bytes:?} gave {other:?}"),
        }
    }
}

#[test]
fn bulk_shorter_than_declared_is_incomplete() {
    match Frame::check(b"$10\r\nabc", 0) {
        Err(Error::Incomplete) => {}
        other => panic!("got {other:?}"),
    }
}

#[test]
fn simple_with_invalid_utf8_fails_parse_only() {
    // The scan accepts any line; the parse rejects the bytes as text.
    let bytes = b"+a\xffb\r\n";
    assert!(Frame::check(bytes, 0).is_ok());
    match Frame::parse(bytes, 0) {
        Err(Error::Other(ProtocolError::InvalidUtf8)) => {}
        other => panic!("got {other:?}"),
    }
    // Bulk bytes carry arbitrary payloads with no such check.
    let (f, _) = parse_all(b"$2\r\n\xff\xfe\r\n");
    assert_eq!(f, Frame::Bulk(vec![0xff, 0xfe]));
}

#[test]
fn nested_array_decodes() {
    let (f, n) = parse_all(b"*1\r\n*1\r\n:5\r\n");
    assert_eq!(n, 12);
    assert_eq!(
        f,
        Frame::Array(vec![Frame::Array(vec![Frame::Integer(5)])])
    );
}
