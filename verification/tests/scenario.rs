//! An end-to-end exchange over the wire bytes, with the clock and the
//! reaper driven by hand: a write with a one-second lapse, then a read
//! after the deadline has passed.
use walrus::cmd::handle_frame;
use walrus::connection::FrameBuffer;
use walrus::db::Db;
use walrus::frame::Frame;

/// Feeds request bytes to the server side, runs the command at `now_ms`,
/// and returns the encoded reply.
fn serve(db: &mut Db, buf: &mut FrameBuffer, request: &[u8], now_ms: u64) -> (Vec<u8>, bool) {
    buf.feed(request);
    let frame = buf
        .parse_frame()
        .expect("well-formed request")
        .expect("complete request");
    let (reply, notify) = handle_frame(db, frame, now_ms).expect("supported request");
    (reply.encode(), notify)
}

#[test]
fn set_with_lapse_then_get_after_it() {
    let mut db = Db::new();
    let mut buf = FrameBuffer::new();

    let request = Frame::Array(vec![
        Frame::Simple(b"set".to_vec()),
        Frame::Simple(b"key2".to_vec()),
        Frame::Bulk(b"value1 value2 value3 value4".to_vec()),
        Frame::Simple(b"px".to_vec()),
        Frame::Integer(1000),
    ])
    .encode();
    let (reply, notify) = serve(&mut db, &mut buf, &request, 0);
    assert_eq!(reply, b"+OK\r\n".to_vec());
    // First deadline tracked: the reaper must be woken.
    assert!(notify);

    // The reaper runs once the deadline has passed.
    let next = db.purge_expired_keys(1100);
    assert_eq!(next, None);

    let request = Frame::Array(vec![
        Frame::Simple(b"get".to_vec()),
        Frame::Simple(b"key2".to_vec()),
    ])
    .encode();
    let (reply, _) = serve(&mut db, &mut buf, &request, 1100);
    assert_eq!(reply, b"$-1\r\n".to_vec());
}

#[test]
fn get_before_the_deadline_still_answers() {
    let mut db = Db::new();
    let mut buf = FrameBuffer::new();

    let request = Frame::Array(vec![
        Frame::Simple(b"set".to_vec()),
        Frame::Simple(b"key3".to_vec()),
        Frame::Bulk(b"value1 value2 value3 value4".to_vec()),
        Frame::Simple(b"px".to_vec()),
        Frame::Integer(1000),
    ])
    .encode();
    let (reply, _) = serve(&mut db, &mut buf, &request, 0);
    assert_eq!(reply, b"+OK\r\n".to_vec());

    // A purge pass before the deadline must not take the key early.
    db.purge_expired_keys(900);

    let request = Frame::Array(vec![
        Frame::Simple(b"get".to_vec()),
        Frame::Simple(b"key3".to_vec()),
    ])
    .encode();
    let (reply, _) = serve(&mut db, &mut buf, &request, 900);
    assert_eq!(reply, b"$27\r\nvalue1 value2 value3 value4\r\n".to_vec());
}
