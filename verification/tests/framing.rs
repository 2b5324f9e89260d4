//! The receive buffer: bytes arrive in arbitrary pieces and complete
//! frames come off the front.
use walrus::connection::FrameBuffer;
use walrus::frame::Frame;

#[test]
fn frame_assembled_across_feeds() {
    let mut buf = FrameBuffer::new();
    assert!(buf.is_empty());
    buf.feed(b"+PO");
    assert!(!buf.is_empty());
    assert_eq!(buf.parse_frame().expect("incomplete is no error"), None);
    buf.feed(b"NG\r\n");
    let f = buf.parse_frame().expect("ok").expect("a frame");
    assert_eq!(f, Frame::Simple(b"PONG".to_vec()));
    assert!(buf.is_empty());
}

#[test]
fn two_frames_in_one_read() {
    let mut buf = FrameBuffer::new();
    buf.feed(b":1\r\n:2\r\n");
    assert_eq!(buf.parse_frame().unwrap(), Some(Frame::Integer(1)));
    assert_eq!(buf.parse_frame().unwrap(), Some(Frame::Integer(2)));
    assert_eq!(buf.parse_frame().unwrap(), None);
}

#[test]
fn partial_tail_stays_buffered() {
    let mut buf = FrameBuffer::new();
    buf.feed(b":1\r\n$5\r\nab");
    assert_eq!(buf.parse_frame().unwrap(), Some(Frame::Integer(1)));
    assert_eq!(buf.parse_frame().unwrap(), None);
    assert!(!buf.is_empty());
    buf.feed(b"cde\r\n");
    assert_eq!(
        buf.parse_frame().unwrap(),
        Some(Frame::Bulk(b"abcde".to_vec()))
    );
}

#[test]
fn malformed_bytes_are_fatal() {
    let mut buf = FrameBuffer::new();
    buf.feed(b"^what\r\n");
    assert!(buf.parse_frame().is_err());
}

#[test]
fn command_array_round_trips_through_buffer() {
    let request = Frame::Array(vec![
        Frame::Simple(b"set".to_vec()),
        Frame::Simple(b"key1".to_vec()),
        Frame::Bulk(b"value1".to_vec()),
    ]);
    let bytes = request.encode();
    let mut buf = FrameBuffer::new();
    // Deliver one byte at a time: no prefix may produce a frame early.
    for (i, b) in bytes.iter().enumerate() {
        buf.feed(&[*b]);
        let got = buf.parse_frame().expect("never malformed");
        if i + 1 < bytes.len() {
            assert_eq!(got, None);
        } else {
            assert_eq!(got, Some(clone_frame(&request)));
        }
    }
}

/// Rebuilds an expected frame; the library type carries no `Clone`.
fn clone_frame(f: &Frame) -> Frame {
    match f {
        Frame::Simple(v) => Frame::Simple(v.clone()),
        Frame::Error(v) => Frame::Error(v.clone()),
        Frame::Integer(n) => Frame::Integer(*n),
        Frame::Bulk(v) => Frame::Bulk(v.clone()),
        Frame::Null => Frame::Null,
        Frame::Array(items) => Frame::Array(items.iter().map(clone_frame).collect()),
    }
}
