use actionkv::command::CommandError;
use actionkv::server::apply_command;
use actionkv::{open, Command, Frame};

fn bulk(s: &str) -> Frame {
    Frame::Bulk(s.as_bytes().to_vec())
}

#[test]
fn get_maps_from_frame() {
    let frame = Frame::Array(vec![bulk("get"), bulk("foo")]);
    let cmd = Command::from_frame(&frame).unwrap();
    assert_eq!(cmd, Command::Get { key: "foo".to_string() });
    assert_eq!(cmd.key(), Some("foo".to_string()));
    assert_eq!(cmd.value(), None);
}

#[test]
fn set_maps_from_frame() {
    let frame = Frame::Array(vec![bulk("set"), bulk("foo"), bulk("bar")]);
    let cmd = Command::from_frame(&frame).unwrap();
    assert_eq!(cmd, Command::Put { key: "foo".to_string(), value: "bar".to_string() });
    assert_eq!(cmd.key(), Some("foo".to_string()));
    assert_eq!(cmd.value(), Some("bar".to_string()));
}

#[test]
fn delete_maps_from_frame() {
    let frame = Frame::Array(vec![bulk("delete"), bulk("k")]);
    let cmd = Command::from_frame(&frame).unwrap();
    assert_eq!(cmd, Command::Delete { key: "k".to_string() });
}

#[test]
fn update_maps_from_frame() {
    let frame = Frame::Array(vec![bulk("update"), bulk("k"), bulk("v")]);
    let cmd = Command::from_frame(&frame).unwrap();
    assert_eq!(cmd, Command::Update { key: "k".to_string(), value: "v".to_string() });
}

#[test]
fn verb_is_case_sensitive() {
    let frame = Frame::Array(vec![bulk("GET"), bulk("foo")]);
    assert_eq!(Command::from_frame(&frame).err(), Some(CommandError::InvalidInput));
}

#[test]
fn wrong_arity_is_invalid_data() {
    let frame = Frame::Array(vec![bulk("get")]);
    assert_eq!(Command::from_frame(&frame).err(), Some(CommandError::InvalidData));
    let frame = Frame::Array(vec![bulk("set"), bulk("k")]);
    assert_eq!(Command::from_frame(&frame).err(), Some(CommandError::InvalidData));
    let frame = Frame::Array(vec![bulk("get"), bulk("k"), bulk("extra")]);
    assert_eq!(Command::from_frame(&frame).err(), Some(CommandError::InvalidData));
}

#[test]
fn non_bulk_argument_is_invalid_data() {
    let frame = Frame::Array(vec![bulk("get"), Frame::Integer(7)]);
    assert_eq!(Command::from_frame(&frame).err(), Some(CommandError::InvalidData));
}

#[test]
fn non_array_frame_is_invalid_input() {
    assert_eq!(
        Command::from_frame(&Frame::Simple("get".to_string())).err(),
        Some(CommandError::InvalidInput)
    );
    assert_eq!(
        Command::from_frame(&Frame::Array(vec![])).err(),
        Some(CommandError::InvalidInput)
    );
}

#[test]
fn set_then_get_replies() {
    let mut db = open();
    let set = Command::Put { key: "foo".to_string(), value: "bar".to_string() };
    let reply = apply_command(&mut db, &set);
    assert_eq!(reply.encode(), b"+OK\r\n".to_vec());
    let get = Command::Get { key: "foo".to_string() };
    let reply = apply_command(&mut db, &get);
    assert_eq!(reply.encode(), b"$3\r\nbar\r\n".to_vec());
}

#[test]
fn second_set_wins() {
    let mut db = open();
    apply_command(&mut db, &Command::Put { key: "foo".to_string(), value: "bar".to_string() });
    apply_command(&mut db, &Command::Put { key: "foo".to_string(), value: "baz".to_string() });
    let reply = apply_command(&mut db, &Command::Get { key: "foo".to_string() });
    assert_eq!(reply.encode(), b"$3\r\nbaz\r\n".to_vec());
}

#[test]
fn get_missing_replies_null() {
    let mut db = open();
    let reply = apply_command(&mut db, &Command::Get { key: "missing".to_string() });
    assert_eq!(reply.encode(), b"$-1\r\n".to_vec());
}

#[test]
fn set_delete_get_replies_null() {
    let mut db = open();
    apply_command(&mut db, &Command::Put { key: "k".to_string(), value: "v".to_string() });
    let reply = apply_command(&mut db, &Command::Delete { key: "k".to_string() });
    assert_eq!(reply.encode(), b"+OK\r\n".to_vec());
    let reply = apply_command(&mut db, &Command::Get { key: "k".to_string() });
    assert_eq!(reply.encode(), b"$-1\r\n".to_vec());
}

#[test]
fn empty_key_is_rejected_with_error_frame() {
    let mut db = open();
    let reply = apply_command(&mut db, &Command::Put { key: "".to_string(), value: "v".to_string() });
    assert!(matches!(reply, Frame::Error(_)));
    let reply = apply_command(&mut db, &Command::Get { key: "".to_string() });
    assert_eq!(reply, Frame::Null);
}

#[test]
fn full_pipeline_from_wire_bytes() {
    let mut db = open();
    let mut conn = actionkv::Connection::new();
    conn.feed(&b"*3\r\n$3\r\nset\r\n$3\r\nfoo\r\n$3\r\nbar\r\n".to_vec());
    let frame = conn.parse_frame().unwrap().unwrap();
    let cmd = Command::from_frame(&frame).unwrap();
    let reply = apply_command(&mut db, &cmd);
    assert_eq!(reply.encode(), b"+OK\r\n".to_vec());

    conn.feed(&b"*2\r\n$3\r\nget\r\n$3\r\nfoo\r\n".to_vec());
    let frame = conn.parse_frame().unwrap().unwrap();
    let cmd = Command::from_frame(&frame).unwrap();
    let reply = apply_command(&mut db, &cmd);
    assert_eq!(reply.encode(), b"$3\r\nbar\r\n".to_vec());
}
