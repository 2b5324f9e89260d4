//! Command dispatch and execution: one decoded array frame in, one reply
//! frame out.
use walrus::cmd::{handle_frame, CmdError, Command, Get, Ping, RPush, SetCmd};
use walrus::db::{Data, Db};
use walrus::frame::Frame;
use walrus::parse::ParseError;

fn req(parts: Vec<Frame>) -> Frame {
    Frame::Array(parts)
}

fn bulk(s: &[u8]) -> Frame {
    Frame::Bulk(s.to_vec())
}

fn simple(s: &[u8]) -> Frame {
    Frame::Simple(s.to_vec())
}

#[test]
fn ping_replies_pong() {
    let mut db = Db::new();
    let (reply, notify) = handle_frame(&mut db, req(vec![bulk(b"PING")]), 0).unwrap();
    assert_eq!(reply, Frame::Simple(b"PONG".to_vec()));
    assert!(!notify);
}

#[test]
fn ping_bounces_message() {
    let mut db = Db::new();
    let (reply, _) =
        handle_frame(&mut db, req(vec![bulk(b"ping"), bulk(b"Hello There!")]), 0).unwrap();
    assert_eq!(reply, Frame::Bulk(b"Hello There!".to_vec()));
}

#[test]
fn command_name_case_does_not_matter() {
    for name in [&b"ping"[..], b"PING", b"PiNg"] {
        let mut db = Db::new();
        let (reply, _) = handle_frame(&mut db, req(vec![bulk(name)]), 0).unwrap();
        assert_eq!(reply, Frame::Simple(b"PONG".to_vec()));
    }
}

#[test]
fn unknown_command_names_it_lowercased() {
    let mut db = Db::new();
    let (reply, notify) = handle_frame(&mut db, req(vec![bulk(b"FOO")]), 0).unwrap();
    assert_eq!(reply, Frame::Error(b"unknown command foo".to_vec()));
    assert!(!notify);
    // The connection stays usable: the next frame is served normally.
    let (reply, _) = handle_frame(&mut db, req(vec![bulk(b"ping")]), 0).unwrap();
    assert_eq!(reply, Frame::Simple(b"PONG".to_vec()));
}

#[test]
fn set_and_get() {
    let mut db = Db::new();
    let (reply, _) = handle_frame(
        &mut db,
        req(vec![bulk(b"set"), bulk(b"k"), bulk(b"v")]),
        0,
    )
    .unwrap();
    assert_eq!(reply, Frame::Simple(b"OK".to_vec()));
    let (reply, _) = handle_frame(&mut db, req(vec![bulk(b"get"), bulk(b"k")]), 0).unwrap();
    assert_eq!(reply, Frame::Bulk(b"v".to_vec()));
}

#[test]
fn get_absent_is_null() {
    let mut db = Db::new();
    let (reply, _) = handle_frame(&mut db, req(vec![bulk(b"get"), bulk(b"nope")]), 0).unwrap();
    assert_eq!(reply, Frame::Null);
}

#[test]
fn get_list_is_wrong_kind() {
    let mut db = Db::new();
    handle_frame(
        &mut db,
        req(vec![bulk(b"rpush"), bulk(b"l"), bulk(b"x")]),
        0,
    )
    .unwrap();
    let (reply, _) = handle_frame(&mut db, req(vec![bulk(b"get"), bulk(b"l")]), 0).unwrap();
    assert_eq!(
        reply,
        Frame::Error(b"operation against a key holding the wrong kind of value".to_vec())
    );
}

#[test]
fn set_with_px_and_ex() {
    let mut db = Db::new();
    let (reply, notify) = handle_frame(
        &mut db,
        req(vec![
            bulk(b"set"),
            bulk(b"a"),
            bulk(b"1"),
            bulk(b"PX"),
            bulk(b"500"),
        ]),
        0,
    )
    .unwrap();
    assert_eq!(reply, Frame::Simple(b"OK".to_vec()));
    assert!(notify);
    assert_eq!(db.next_expiration(), Some(500));
    // ex counts seconds; the option token's case does not matter.
    handle_frame(
        &mut db,
        req(vec![
            bulk(b"set"),
            bulk(b"b"),
            bulk(b"2"),
            bulk(b"eX"),
            Frame::Integer(2),
        ]),
        0,
    )
    .unwrap();
    assert_eq!(db.purge_expired_keys(1_999), Some(2_000));
}

#[test]
fn set_with_other_option_is_refused_but_not_fatal() {
    let mut db = Db::new();
    let (reply, notify) = handle_frame(
        &mut db,
        req(vec![
            bulk(b"set"),
            bulk(b"a"),
            bulk(b"1"),
            bulk(b"NX"),
        ]),
        0,
    )
    .unwrap();
    assert_eq!(
        reply,
        Frame::Error(b"only supports expiration option".to_vec())
    );
    assert!(!notify);
    assert_eq!(db.get(b"a"), None);
}

#[test]
fn set_missing_value_is_fatal() {
    let mut db = Db::new();
    let r = handle_frame(&mut db, req(vec![bulk(b"set"), bulk(b"a")]), 0);
    assert_eq!(r, Err(ParseError::EndOfStream));
}

#[test]
fn non_array_frame_is_fatal() {
    let mut db = Db::new();
    let r = handle_frame(&mut db, simple(b"PING"), 0);
    assert_eq!(r, Err(ParseError::NotArray));
}

#[test]
fn rpush_reports_lengths_and_conflicts() {
    let mut db = Db::new();
    let (reply, _) = handle_frame(
        &mut db,
        req(vec![bulk(b"rpush"), bulk(b"k"), bulk(b"a"), bulk(b"b")]),
        0,
    )
    .unwrap();
    assert_eq!(reply, Frame::Integer(2));
    let (reply, _) = handle_frame(
        &mut db,
        req(vec![bulk(b"rpush"), bulk(b"k"), bulk(b"c")]),
        0,
    )
    .unwrap();
    assert_eq!(reply, Frame::Integer(3));
    // Against a key set to plain bytes: zero, and the value survives.
    handle_frame(
        &mut db,
        req(vec![bulk(b"set"), bulk(b"s"), bulk(b"keep")]),
        0,
    )
    .unwrap();
    let (reply, _) = handle_frame(
        &mut db,
        req(vec![bulk(b"rpush"), bulk(b"s"), bulk(b"x")]),
        0,
    )
    .unwrap();
    assert_eq!(reply, Frame::Integer(0));
    let (reply, _) = handle_frame(&mut db, req(vec![bulk(b"get"), bulk(b"s")]), 0).unwrap();
    assert_eq!(reply, Frame::Bulk(b"keep".to_vec()));
}

#[test]
fn from_frame_builds_typed_commands() {
    let c = Command::from_frame(req(vec![bulk(b"GET"), bulk(b"k")])).unwrap();
    assert!(matches!(c, Command::Get(_)));
    let c = Command::from_frame(req(vec![bulk(b"zap")])).unwrap();
    match c {
        Command::Unknown(name) => assert_eq!(name, b"zap".to_vec()),
        other => panic!("got {other:?}"),
    }
    let e = Command::from_frame(req(vec![
        bulk(b"set"),
        bulk(b"k"),
        bulk(b"v"),
        bulk(b"XX"),
    ]))
    .unwrap_err();
    assert_eq!(e, CmdError::UnsupportedOption);
}

#[test]
fn request_builders_round_trip_through_dispatch() {
    // A client-built request, once decoded on the server side, dispatches
    // to the command it was built from.
    let mut db = Db::new();

    let f = Ping::new(Some(b"hey".to_vec())).into_frame();
    let (reply, _) = handle_frame(&mut db, f, 0).unwrap();
    assert_eq!(reply, Frame::Bulk(b"hey".to_vec()));

    let f = SetCmd::new(b"k".to_vec(), b"v".to_vec(), Some(250)).into_frame();
    let (reply, notify) = handle_frame(&mut db, f, 0).unwrap();
    assert_eq!(reply, Frame::Simple(b"OK".to_vec()));
    assert!(notify);
    assert_eq!(db.next_expiration(), Some(250));

    let f = Get::new(b"k".to_vec()).into_frame();
    let (reply, _) = handle_frame(&mut db, f, 0).unwrap();
    assert_eq!(reply, Frame::Bulk(b"v".to_vec()));

    let f = RPush::new(
        b"list1".to_vec(),
        vec![
            Data::String(b"val1".to_vec()),
            Data::Integer(1),
            Data::Bytes(b"val3".to_vec()),
        ],
    )
    .into_frame();
    let (reply, _) = handle_frame(&mut db, f, 0).unwrap();
    assert_eq!(reply, Frame::Integer(3));
}

#[test]
fn wrong_argument_types_are_fatal() {
    // An integer where the key must be text.
    let mut db = Db::new();
    let r = handle_frame(&mut db, req(vec![bulk(b"get"), Frame::Integer(3)]), 0);
    assert_eq!(r, Err(ParseError::WrongType));
    // A non-numeric expiration count.
    let r = handle_frame(
        &mut db,
        req(vec![
            bulk(b"set"),
            bulk(b"k"),
            bulk(b"v"),
            bulk(b"ex"),
            bulk(b"soon"),
        ]),
        0,
    );
    assert_eq!(r, Err(ParseError::InvalidNumber));
    // A key that is not valid UTF-8.
    let r = handle_frame(&mut db, req(vec![bulk(b"get"), bulk(b"\xff\xfe")]), 0);
    assert_eq!(r, Err(ParseError::InvalidUtf8));
    // A list item of a kind no list can hold.
    let r = handle_frame(
        &mut db,
        req(vec![bulk(b"rpush"), bulk(b"l"), Frame::Null]),
        0,
    );
    assert_eq!(r, Err(ParseError::WrongType));
}

#[test]
fn ping_with_invalid_utf8_message_still_bounces() {
    // The ping message is raw bytes: no UTF-8 check applies to it.
    let mut db = Db::new();
    let (reply, _) = handle_frame(
        &mut db,
        req(vec![bulk(b"ping"), bulk(b"\xff\xfe")]),
        0,
    )
    .unwrap();
    assert_eq!(reply, Frame::Bulk(vec![0xff, 0xfe]));
}
