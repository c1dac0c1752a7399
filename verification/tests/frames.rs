use actionkv::frame::{get_line, Frame, FrameError};
use actionkv::Connection;

fn parse_all(bytes: &[u8]) -> (Frame, usize) {
    let buf = bytes.to_vec();
    let mut pos: usize = 0;
    let frame = Frame::parse(&buf, &mut pos).unwrap();
    (frame, pos)
}

#[test]
fn encode_simple() {
    let f = Frame::Simple("OK".to_string());
    assert_eq!(f.encode(), b"+OK\r\n".to_vec());
}

#[test]
fn encode_error() {
    let f = Frame::Error("oops".to_string());
    assert_eq!(f.encode(), b"-oops\r\n".to_vec());
}

#[test]
fn encode_integer() {
    assert_eq!(Frame::Integer(0).encode(), b":0\r\n".to_vec());
    assert_eq!(Frame::Integer(1234).encode(), b":1234\r\n".to_vec());
}

#[test]
fn encode_bulk() {
    let f = Frame::Bulk(b"bar".to_vec());
    assert_eq!(f.encode(), b"$3\r\nbar\r\n".to_vec());
}

#[test]
fn encode_null() {
    assert_eq!(Frame::Null.encode(), b"$-1\r\n".to_vec());
}

#[test]
fn encode_array() {
    let f = Frame::Array(vec![
        Frame::Bulk(b"get".to_vec()),
        Frame::Bulk(b"foo".to_vec()),
    ]);
    assert_eq!(f.encode(), b"*2\r\n$3\r\nget\r\n$3\r\nfoo\r\n".to_vec());
}

#[test]
fn simple_round_trips() {
    let f = Frame::Simple("hello".to_string());
    let (back, used) = parse_all(&f.encode());
    assert_eq!(back, f);
    assert_eq!(used, f.encode().len());
}

#[test]
fn error_round_trips() {
    let f = Frame::Error("bad thing".to_string());
    let (back, _) = parse_all(&f.encode());
    assert_eq!(back, f);
}

#[test]
fn integer_round_trips() {
    let f = Frame::Integer(u64::MAX);
    let (back, _) = parse_all(&f.encode());
    assert_eq!(back, f);
}

#[test]
fn bulk_round_trips_with_crlf_payload() {
    let f = Frame::Bulk(b"a\r\nb".to_vec());
    let (back, used) = parse_all(&f.encode());
    assert_eq!(back, f);
    assert_eq!(used, f.encode().len());
}

#[test]
fn null_round_trips() {
    let (back, _) = parse_all(&Frame::Null.encode());
    assert_eq!(back, Frame::Null);
}

#[test]
fn array_round_trips() {
    let f = Frame::Array(vec![
        Frame::Integer(1),
        Frame::Bulk(b"x".to_vec()),
        Frame::Simple("ok".to_string()),
    ]);
    let (back, used) = parse_all(&f.encode());
    assert_eq!(back, f);
    assert_eq!(used, f.encode().len());
}

#[test]
fn star_minus_one_parses_as_null() {
    let (back, _) = parse_all(b"*-1\r\n");
    assert_eq!(back, Frame::Null);
}

#[test]
fn incremental_feed_yields_frame_and_empty_buffer() {
    let bytes = Frame::Bulk(b"bar".to_vec()).encode();
    let mut conn = Connection::new();
    for (i, b) in bytes.iter().enumerate() {
        if i + 1 < bytes.len() {
            conn.feed(&vec![*b]);
            assert_eq!(conn.parse_frame().err(), Some(FrameError::Incomplete));
        } else {
            conn.feed(&vec![*b]);
        }
    }
    let frame = conn.parse_frame().unwrap().unwrap();
    assert_eq!(frame, Frame::Bulk(b"bar".to_vec()));
    assert!(conn.buf.is_empty());
}

#[test]
fn parse_frame_leaves_following_bytes() {
    let mut bytes = Frame::Simple("a".to_string()).encode();
    bytes.extend_from_slice(&Frame::Integer(7).encode());
    let mut conn = Connection::new();
    conn.feed(&bytes);
    assert_eq!(conn.parse_frame().unwrap().unwrap(), Frame::Simple("a".to_string()));
    assert_eq!(conn.parse_frame().unwrap().unwrap(), Frame::Integer(7));
    assert!(conn.buf.is_empty());
}

#[test]
fn malformed_line_is_reported() {
    let mut conn = Connection::new();
    conn.feed(&b"+foo\rx\n".to_vec());
    assert_eq!(conn.parse_frame().err(), Some(FrameError::Malformed));
}

#[test]
fn unknown_tag_is_malformed() {
    let mut conn = Connection::new();
    conn.feed(&b"?\r\n".to_vec());
    assert_eq!(conn.parse_frame().err(), Some(FrameError::Malformed));
}

#[test]
fn integer_with_nondigits_is_malformed() {
    let buf = b":12x\r\n".to_vec();
    let mut pos: usize = 0;
    assert_eq!(Frame::parse(&buf, &mut pos).err(), Some(FrameError::Malformed));
}

#[test]
fn integer_too_large_is_malformed() {
    let buf = b":18446744073709551616\r\n".to_vec();
    let mut pos: usize = 0;
    assert_eq!(Frame::parse(&buf, &mut pos).err(), Some(FrameError::Malformed));
}

#[test]
fn bulk_with_wrong_length_is_malformed() {
    let buf = b"$3\r\nbarx\r\n".to_vec();
    let mut pos: usize = 0;
    assert_eq!(Frame::parse(&buf, &mut pos).err(), Some(FrameError::Malformed));
}

#[test]
fn check_advances_past_one_frame() {
    let buf = b"$3\r\nbar\r\n:1\r\n".to_vec();
    let mut pos: usize = 0;
    Frame::check(&buf, &mut pos).unwrap();
    assert_eq!(pos, 9);
}

#[test]
fn get_line_reads_until_terminator() {
    let buf = b"abc\r\nrest".to_vec();
    let mut pos: usize = 0;
    assert_eq!(get_line(&buf, &mut pos).unwrap(), b"abc".to_vec());
    assert_eq!(pos, 5);
}

#[test]
fn get_line_without_terminator_is_incomplete() {
    let buf = b"abc".to_vec();
    let mut pos: usize = 0;
    assert_eq!(get_line(&buf, &mut pos).err(), Some(FrameError::Incomplete));
}

#[test]
fn get_line_cr_without_lf_is_malformed() {
    let buf = b"a\rb".to_vec();
    let mut pos: usize = 0;
    assert_eq!(get_line(&buf, &mut pos).err(), Some(FrameError::Malformed));
}

#[test]
fn incremental_feed_of_array_frame() {
    let bytes = Frame::Array(vec![
        Frame::Bulk(b"get".to_vec()),
        Frame::Bulk(b"foo".to_vec()),
    ])
    .encode();
    let mut conn = Connection::new();
    for (i, b) in bytes.iter().enumerate() {
        conn.feed(&vec![*b]);
        if i + 1 < bytes.len() {
            assert_eq!(conn.parse_frame().err(), Some(FrameError::Incomplete));
        }
    }
    let frame = conn.parse_frame().unwrap().unwrap();
    assert_eq!(
        frame,
        Frame::Array(vec![Frame::Bulk(b"get".to_vec()), Frame::Bulk(b"foo".to_vec())])
    );
    assert!(conn.buf.is_empty());
}
