use kvwire::commands::{respond, Command, Echo, FrameIter, Get, Ping, SetCmd};
use kvwire::db::State;
use kvwire::frame::{take_frame, Error, Frame};

fn bulk(s: &str) -> Frame {
    Frame::Bulk(s.as_bytes().to_vec())
}

fn request(parts: &[&str]) -> Frame {
    Frame::Array(parts.iter().map(|p| bulk(p)).collect())
}

fn exchange(db: &mut State, input: &[u8], now: u64) -> Vec<u8> {
    let mut buf = input.to_vec();
    let frame = take_frame(&mut buf).unwrap().unwrap();
    assert!(buf.is_empty());
    let (reply, _) = respond(db, frame, now);
    reply.serialize()
}

#[test]
fn ping_set_get_on_the_wire() {
    let mut db = State::new();
    assert_eq!(exchange(&mut db, b"*2\r\n$4\r\nPING\r\n$0\r\n\r\n", 0), b"+PONG\r\n".to_vec());
    assert_eq!(exchange(&mut db, b"*3\r\n$3\r\nSET\r\n$1\r\nk\r\n$1\r\nv\r\n", 0), b"+OK\r\n".to_vec());
    assert_eq!(exchange(&mut db, b"*2\r\n$3\r\nGET\r\n$1\r\nk\r\n", 0), b"$1\r\nv\r\n".to_vec());
}

#[test]
fn get_missing_replies_null() {
    let mut db = State::new();
    assert_eq!(exchange(&mut db, b"*2\r\n$3\r\nget\r\n$1\r\nq\r\n", 0), b"$-1\r\n".to_vec());
}

#[test]
fn echo_replies_bulk() {
    let mut db = State::new();
    assert_eq!(exchange(&mut db, b"*2\r\n$4\r\nEcHo\r\n$2\r\nhi\r\n", 0), b"$2\r\nhi\r\n".to_vec());
}

#[test]
fn set_with_px_expires() {
    let mut db = State::new();
    let (reply, notify) = respond(&mut db, request(&["set", "k", "v", "PX", "100"]), 1000);
    assert_eq!(reply, Frame::Simple("OK".to_string()));
    assert!(notify);
    assert_eq!(db.get("k"), Some(b"v".to_vec()));
    assert_eq!(db.remove_expired_keys(1100), None);
    assert_eq!(db.get("k"), None);
}

#[test]
fn set_px_near_the_end_of_time_is_capped() {
    let mut db = State::new();
    respond(&mut db, request(&["SET", "k", "v", "px", "18446744073709551615"]), 5);
    assert_eq!(db.next_expiration(), Some(u64::MAX));
}

#[test]
fn unknown_command_replies_error() {
    let mut db = State::new();
    let (reply, notify) = respond(&mut db, request(&["FLUSHALL"]), 0);
    assert!(matches!(reply, Frame::Error(_)));
    assert!(!notify);
}

#[test]
fn malformed_requests_reply_error() {
    let mut db = State::new();
    for f in [
        Frame::Integer(3),
        Frame::Array(Vec::new()),
        request(&["GET"]),
        request(&["SET", "k"]),
        request(&["SET", "k", "v", "EX", "10"]),
        request(&["SET", "k", "v", "PX", "ten"]),
        Frame::Array(vec![Frame::Null]),
    ] {
        let (reply, _) = respond(&mut db, f, 0);
        assert!(matches!(reply, Frame::Error(_)));
    }
    assert_eq!(db.get("k"), None);
}

#[test]
fn from_frame_reads_set() {
    let c = Command::from_frame(Frame::Array(vec![
        Frame::Simple("Set".to_string()),
        bulk("key"),
        Frame::Simple("val".to_string()),
        bulk("px"),
        Frame::Integer(250),
    ]));
    match c {
        Ok(Command::SetCmd(s)) => {
            assert_eq!(s.key, "key");
            assert_eq!(s.value, b"val".to_vec());
            assert_eq!(s.expire, Some(250));
        }
        _ => panic!("expected SET"),
    }
}

#[test]
fn from_frame_rejects_non_array() {
    assert!(matches!(Command::from_frame(bulk("PING")), Err(Error::Other(_))));
}

#[test]
fn frame_iter_reads_each_kind() {
    let mut it = FrameIter {
        frames: vec![bulk("42"), Frame::Simple("7".to_string()), Frame::Integer(9), Frame::Bulk(vec![0xff]), Frame::Null],
        pos: 0,
    };
    assert_eq!(it.next_int(), Ok(42));
    assert_eq!(it.next_int(), Ok(7));
    assert_eq!(it.next_int(), Ok(9));
    assert_eq!(it.next_string(), None);
    assert!(it.next_bytes().is_err());
    assert!(it.next_bytes().is_err());
    assert_eq!(it.pos, 5);
}

#[test]
fn parse_frames_reads_arguments() {
    let mut it = FrameIter { frames: vec![bulk("GET"), bulk("k")], pos: 1 };
    assert_eq!(Get::parse_frames(&mut it).unwrap().key, "k");
    let mut it = FrameIter { frames: vec![bulk("ECHO"), bulk("hey")], pos: 1 };
    assert_eq!(Echo::parse_frames(&mut it).unwrap().msg, b"hey".to_vec());
    let mut it = FrameIter { frames: vec![bulk("SET"), bulk("k"), bulk("v")], pos: 1 };
    let s = SetCmd::parse_frames(&mut it).unwrap();
    assert_eq!((s.key.as_str(), s.value.as_slice(), s.expire), ("k", &b"v"[..], None));
}

#[test]
fn parse_frames_rejects_wrong_arity() {
    let mut it = FrameIter { frames: vec![bulk("GET"), bulk("a"), bulk("b")], pos: 1 };
    assert!(matches!(Get::parse_frames(&mut it), Err(Error::Other(_))));
    let mut it = FrameIter { frames: vec![bulk("ECHO")], pos: 1 };
    assert!(matches!(Echo::parse_frames(&mut it), Err(Error::Other(_))));
    let mut it = FrameIter { frames: vec![bulk("SET"), bulk("k"), bulk("v"), bulk("PX")], pos: 1 };
    assert!(matches!(SetCmd::parse_frames(&mut it), Err(Error::Other(_))));
}

#[test]
fn ping_and_echo_apply() {
    assert_eq!(Ping.apply(), Frame::Simple("PONG".to_string()));
    assert_eq!(Echo { msg: b"m".to_vec() }.apply(), Frame::Bulk(b"m".to_vec()));
}
