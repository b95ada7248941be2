use kv_wire::command::{Command, Unsupported};
use kv_wire::frame::Frame;
use kv_wire::reply::{outcome, read_reply, ClientError, Reply};

fn bulk(bytes: &[u8]) -> Frame {
    Frame::Bulk(bytes.to_vec())
}

fn get(key: &str) -> Command {
    Command::Get { key: key.to_string() }
}

fn put(key: &str, value: &[u8]) -> Command {
    Command::Put { key: key.to_string(), value: value.to_vec() }
}

#[test]
fn get_is_written_as_an_array_of_two_bulks() {
    assert_eq!(get("hello").to_frame(), Frame::Array(vec![bulk(b"GET"), bulk(b"hello")]));
    assert_eq!(
        get("hello").to_frame().encode(),
        b"*2\r\n$3\r\nGET\r\n$5\r\nhello\r\n".to_vec()
    );
}

#[test]
fn put_is_written_as_an_array_of_three_bulks() {
    assert_eq!(
        put("hello", b"world").to_frame(),
        Frame::Array(vec![bulk(b"SET"), bulk(b"hello"), bulk(b"world")])
    );
    assert_eq!(
        put("hello", b"world").to_frame().encode(),
        b"*3\r\n$3\r\nSET\r\n$5\r\nhello\r\n$5\r\nworld\r\n".to_vec()
    );
}

#[test]
fn commands_round_trip() {
    assert_eq!(Command::from_frame(get("hello").to_frame()), Ok(get("hello")));
    assert_eq!(Command::from_frame(put("k", b"\x00\xff").to_frame()), Ok(put("k", b"\x00\xff")));
    assert_eq!(Command::from_frame(get("").to_frame()), Ok(get("")));
    assert_eq!(
        Command::from_frame(put("sch\u{f6}n", b"").to_frame()),
        Ok(put("sch\u{f6}n", b""))
    );
}

#[test]
fn verb_is_read_in_either_case() {
    assert_eq!(
        Command::from_frame(Frame::Array(vec![bulk(b"get"), bulk(b"k")])),
        Ok(get("k"))
    );
    assert_eq!(
        Command::from_frame(Frame::Array(vec![bulk(b"sEt"), bulk(b"k"), bulk(b"v")])),
        Ok(put("k", b"v"))
    );
}

#[test]
fn unknown_verb_is_unsupported() {
    assert_eq!(
        Command::from_frame(Frame::Array(vec![bulk(b"PUBLISH"), bulk(b"k"), bulk(b"v")])),
        Err(Unsupported)
    );
    assert_eq!(
        Command::from_frame(Frame::Array(vec![bulk(b"GE"), bulk(b"k")])),
        Err(Unsupported)
    );
    assert_eq!(
        Command::from_frame(Frame::Array(vec![bulk(b"G\x25T"), bulk(b"k")])),
        Err(Unsupported)
    );
}

#[test]
fn wrong_number_of_arguments_is_unsupported() {
    assert_eq!(Command::from_frame(Frame::Array(vec![])), Err(Unsupported));
    assert_eq!(Command::from_frame(Frame::Array(vec![bulk(b"GET")])), Err(Unsupported));
    assert_eq!(
        Command::from_frame(Frame::Array(vec![bulk(b"GET"), bulk(b"k"), bulk(b"v")])),
        Err(Unsupported)
    );
    assert_eq!(
        Command::from_frame(Frame::Array(vec![bulk(b"SET"), bulk(b"k")])),
        Err(Unsupported)
    );
    assert_eq!(
        Command::from_frame(Frame::Array(vec![
            bulk(b"SET"),
            bulk(b"k"),
            bulk(b"v"),
            bulk(b"EX"),
        ])),
        Err(Unsupported)
    );
}

#[test]
fn what_is_not_an_array_of_bulks_is_unsupported() {
    assert_eq!(Command::from_frame(Frame::Null), Err(Unsupported));
    assert_eq!(Command::from_frame(Frame::Simple("GET".to_string())), Err(Unsupported));
    assert_eq!(Command::from_frame(bulk(b"GET")), Err(Unsupported));
    assert_eq!(Command::from_frame(Frame::Integer(1)), Err(Unsupported));
    assert_eq!(
        Command::from_frame(Frame::Array(vec![Frame::Simple("GET".to_string()), bulk(b"k")])),
        Err(Unsupported)
    );
    assert_eq!(
        Command::from_frame(Frame::Array(vec![bulk(b"GET"), Frame::Integer(1)])),
        Err(Unsupported)
    );
    assert_eq!(
        Command::from_frame(Frame::Array(vec![bulk(b"SET"), bulk(b"k"), Frame::Null])),
        Err(Unsupported)
    );
}

#[test]
fn key_that_is_not_utf8_is_unsupported() {
    assert_eq!(
        Command::from_frame(Frame::Array(vec![bulk(b"GET"), bulk(b"\xff")])),
        Err(Unsupported)
    );
}

#[test]
fn reply_to_get() {
    assert_eq!(
        read_reply(&get("k"), bulk(b"world")),
        Ok(Reply::Value(Some(b"world".to_vec())))
    );
    assert_eq!(
        read_reply(&get("k"), Frame::Simple("world".to_string())),
        Ok(Reply::Value(Some(b"world".to_vec())))
    );
    assert_eq!(read_reply(&get("k"), Frame::Null), Ok(Reply::Value(None)));
    assert_eq!(read_reply(&get("k"), bulk(b"")), Ok(Reply::Value(Some(Vec::new()))));
    assert_eq!(read_reply(&get("k"), Frame::Integer(1)), Err(ClientError::Unexpected));
    assert_eq!(read_reply(&get("k"), Frame::Array(vec![])), Err(ClientError::Unexpected));
}

#[test]
fn reply_to_put() {
    assert_eq!(read_reply(&put("k", b"v"), Frame::Simple("OK".to_string())), Ok(Reply::Done));
    assert_eq!(
        read_reply(&put("k", b"v"), Frame::Simple("ok".to_string())),
        Err(ClientError::Unexpected)
    );
    assert_eq!(read_reply(&put("k", b"v"), bulk(b"OK")), Err(ClientError::Unexpected));
    assert_eq!(read_reply(&put("k", b"v"), Frame::Null), Err(ClientError::Unexpected));
}

#[test]
fn error_frame_is_the_servers_refusal() {
    assert_eq!(
        read_reply(&get("k"), Frame::Error("ERR unsupported command".to_string())),
        Err(ClientError::Server("ERR unsupported command".to_string()))
    );
    assert_eq!(
        read_reply(&put("k", b"v"), Frame::Error("no".to_string())),
        Err(ClientError::Server("no".to_string()))
    );
}

#[test]
fn producer_is_told_manager_gone_when_nothing_arrived() {
    assert_eq!(outcome(None), Err(ClientError::ManagerGone));
    assert_eq!(outcome(Some(Ok(Reply::Done))), Ok(Reply::Done));
    assert_eq!(outcome(Some(Err(ClientError::Unexpected))), Err(ClientError::Unexpected));
}
