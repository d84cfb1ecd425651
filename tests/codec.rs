use kvwire::frame::{get_line, get_number, take_frame, Error, Frame};

fn parse_all(bytes: &[u8]) -> (Result<Frame, Error>, usize) {
    let mut pos: usize = 0;
    let r = Frame::parse(bytes, &mut pos);
    (r, pos)
}

fn samples() -> Vec<Frame> {
    vec![
        Frame::Simple("OK".to_string()),
        Frame::Simple(String::new()),
        Frame::Simple("héllo wörld".to_string()),
        Frame::Error("ERR wrong".to_string()),
        Frame::Integer(0),
        Frame::Integer(u64::MAX),
        Frame::Null,
        Frame::Bulk(Vec::new()),
        Frame::Bulk(b"a\r\nb\0c".to_vec()),
        Frame::Array(Vec::new()),
        Frame::Array(vec![
            Frame::Bulk(b"SET".to_vec()),
            Frame::Array(vec![Frame::Integer(7), Frame::Null]),
            Frame::Simple("x".to_string()),
        ]),
    ]
}

#[test]
fn serialize_simple() {
    assert_eq!(Frame::Simple("PONG".to_string()).serialize(), b"+PONG\r\n".to_vec());
}

#[test]
fn serialize_bulk() {
    assert_eq!(Frame::Bulk(b"v".to_vec()).serialize(), b"$1\r\nv\r\n".to_vec());
    assert_eq!(Frame::Bulk(b"0123456789ab".to_vec()).serialize(), b"$12\r\n0123456789ab\r\n".to_vec());
}

#[test]
fn serialize_null_integer_error() {
    assert_eq!(Frame::Null.serialize(), b"$-1\r\n".to_vec());
    assert_eq!(Frame::Integer(1234).serialize(), b":1234\r\n".to_vec());
    assert_eq!(Frame::Error("ERR x".to_string()).serialize(), b"-ERR x\r\n".to_vec());
}

#[test]
fn serialize_array() {
    let f = Frame::Array(vec![Frame::Bulk(b"GET".to_vec()), Frame::Bulk(b"k".to_vec())]);
    assert_eq!(f.serialize(), b"*2\r\n$3\r\nGET\r\n$1\r\nk\r\n".to_vec());
}

#[test]
fn round_trip_every_sample() {
    for f in samples() {
        let bytes = f.serialize();
        let (r, pos) = parse_all(&bytes);
        assert_eq!(pos, bytes.len());
        assert_eq!(r, Ok(f));
    }
}

#[test]
fn prefixes_are_incomplete() {
    for f in samples() {
        let bytes = f.serialize();
        for k in 0..bytes.len() {
            let (r, pos) = parse_all(&bytes[..k]);
            assert_eq!(r, Err(Error::Incomplete), "prefix {} of {:?}", k, f);
            assert_eq!(pos, 0);
        }
        let (r, _) = parse_all(&bytes);
        assert_eq!(r, Ok(f));
    }
}

#[test]
fn parse_request_array() {
    let (r, pos) = parse_all(b"*3\r\n$3\r\nget\r\n$6\r\nhorses\r\n$7\r\noranges\r\n");
    let want = Frame::Array(vec![
        Frame::Bulk(b"get".to_vec()),
        Frame::Bulk(b"horses".to_vec()),
        Frame::Bulk(b"oranges".to_vec()),
    ]);
    assert_eq!(r, Ok(want));
    assert_eq!(pos, 38);
}

#[test]
fn parse_stops_after_one_frame() {
    let (r, pos) = parse_all(b"+OK\r\n:5\r\n");
    assert_eq!(r, Ok(Frame::Simple("OK".to_string())));
    assert_eq!(pos, 5);
}

#[test]
fn parse_empty_is_incomplete() {
    let (r, pos) = parse_all(b"");
    assert_eq!(r, Err(Error::Incomplete));
    assert_eq!(pos, 0);
}

#[test]
fn parse_unknown_tag_is_malformed() {
    let (r, pos) = parse_all(b"?abc\r\n");
    assert!(matches!(r, Err(Error::Other(_))));
    assert_eq!(pos, 0);
}

#[test]
fn parse_bad_length_is_malformed() {
    assert!(matches!(parse_all(b"$x1\r\nab\r\n").0, Err(Error::Other(_))));
    assert!(matches!(parse_all(b"*+1\r\n").0, Err(Error::Other(_))));
    assert!(matches!(parse_all(b":\r\n").0, Err(Error::Other(_))));
    assert!(matches!(parse_all(b":18446744073709551616\r\n").0, Err(Error::Other(_))));
}

#[test]
fn parse_bulk_bad_terminator_is_malformed() {
    assert!(matches!(parse_all(b"$2\r\nabXY").0, Err(Error::Other(_))));
}

#[test]
fn parse_simple_invalid_utf8_is_malformed() {
    assert!(matches!(parse_all(b"+\xff\xfe\r\n").0, Err(Error::Other(_))));
}

#[test]
fn parse_simple_utf8_text() {
    let (r, _) = parse_all("+héllo\r\n".as_bytes());
    assert_eq!(r, Ok(Frame::Simple("héllo".to_string())));
}

#[test]
fn parse_integer_max() {
    let (r, _) = parse_all(b":18446744073709551615\r\n");
    assert_eq!(r, Ok(Frame::Integer(u64::MAX)));
}

#[test]
fn get_line_reads_to_crlf() {
    let src: &[u8] = b"12\r\nrest";
    let mut pos: usize = 0;
    let line = get_line(src, &mut pos);
    assert_eq!(line, Ok(&b"12"[..]));
    assert_eq!(pos, 4);
}

#[test]
fn get_line_without_crlf_is_incomplete() {
    let src: &[u8] = b"12\r";
    let mut pos: usize = 0;
    assert_eq!(get_line(src, &mut pos), Err(Error::Incomplete));
    assert_eq!(pos, 0);
}

#[test]
fn get_number_reads_decimal() {
    let src: &[u8] = b"*42\r\n";
    let mut pos: usize = 1;
    assert_eq!(get_number(src, &mut pos), Ok(42));
    assert_eq!(pos, 5);
    let mut pos2: usize = 0;
    assert!(matches!(get_number(b"-1\r\n", &mut pos2), Err(Error::Other(_))));
}

#[test]
fn take_frame_keeps_pipelined_bytes() {
    let mut buf = b"+OK\r\n:5\r\n:6".to_vec();
    assert_eq!(take_frame(&mut buf), Ok(Some(Frame::Simple("OK".to_string()))));
    assert_eq!(buf, b":5\r\n:6".to_vec());
    assert_eq!(take_frame(&mut buf), Ok(Some(Frame::Integer(5))));
    assert_eq!(buf, b":6".to_vec());
    assert_eq!(take_frame(&mut buf), Ok(None));
    assert_eq!(buf, b":6".to_vec());
    buf.extend_from_slice(b"\r\n");
    assert_eq!(take_frame(&mut buf), Ok(Some(Frame::Integer(6))));
    assert!(buf.is_empty());
}

#[test]
fn take_frame_rejects_garbage() {
    let mut buf = b"hello\r\n".to_vec();
    assert!(matches!(take_frame(&mut buf), Err(Error::Other(_))));
    assert_eq!(buf, b"hello\r\n".to_vec());
}

#[test]
fn error_message() {
    assert_eq!(Error::Incomplete.message(), "stream ended early");
    assert_eq!(Error::Other("bad".to_string()).message(), "bad");
}
