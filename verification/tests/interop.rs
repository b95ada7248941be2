use std::io::Cursor;

use kv_wire::codec::Check;
use kv_wire::command::Command;
use kv_wire::frame::Frame;

/// The frame of this library that a frame of `mini_redis` stands for.
fn convert(frame: mini_redis::Frame) -> Frame {
    match frame {
        mini_redis::Frame::Simple(text) => Frame::Simple(text),
        mini_redis::Frame::Error(text) => Frame::Error(text),
        mini_redis::Frame::Integer(value) => Frame::Integer(value as i64),
        mini_redis::Frame::Bulk(bytes) => Frame::Bulk(bytes.to_vec()),
        mini_redis::Frame::Null => Frame::Null,
        mini_redis::Frame::Array(items) => Frame::Array(items.into_iter().map(convert).collect()),
    }
}

/// Frames that both this library and `mini_redis` can carry.
fn shared_frames() -> Vec<Frame> {
    vec![
        Frame::Simple("OK".to_string()),
        Frame::Simple(String::new()),
        Frame::Error("ERR unsupported command".to_string()),
        Frame::Integer(0),
        Frame::Integer(1234567890123),
        Frame::Integer(i64::MAX),
        Frame::Bulk(b"world".to_vec()),
        Frame::Bulk(Vec::new()),
        Frame::Bulk(vec![0, 13, 10, 255]),
        Frame::Null,
        Frame::Array(vec![]),
        Frame::Array(vec![
            Frame::Bulk(b"SET".to_vec()),
            Frame::Bulk(b"hello".to_vec()),
            Frame::Bulk(b"world".to_vec()),
        ]),
        Frame::Array(vec![
            Frame::Integer(7),
            Frame::Array(vec![Frame::Null, Frame::Simple("deep".to_string())]),
        ]),
    ]
}

#[test]
fn what_this_library_writes_mini_redis_reads() {
    for frame in shared_frames() {
        let bytes = frame.encode();
        let mut cursor = Cursor::new(&bytes[..]);
        assert!(mini_redis::Frame::check(&mut cursor).is_ok());
        assert_eq!(cursor.position() as usize, bytes.len());
        cursor.set_position(0);
        let read = mini_redis::Frame::parse(&mut cursor).expect("a frame that was checked");
        assert_eq!(convert(read), frame);
    }
}

#[test]
fn both_find_the_same_prefixes_incomplete() {
    for frame in shared_frames() {
        let bytes = frame.encode();
        for cut in 0..bytes.len() {
            let mut cursor = Cursor::new(&bytes[..cut]);
            assert!(matches!(
                mini_redis::Frame::check(&mut cursor),
                Err(mini_redis::frame::Error::Incomplete)
            ));
            assert_eq!(Frame::check(&bytes[..cut]), Check::Incomplete);
        }
    }
}

#[test]
fn requests_of_this_library_are_commands_to_mini_redis() {
    let get = Command::Get { key: "hello".to_string() }.to_frame().encode();
    let mut cursor = Cursor::new(&get[..]);
    let frame = mini_redis::Frame::parse(&mut cursor).expect("a whole frame");
    match mini_redis::Command::from_frame(frame).expect("a command") {
        mini_redis::Command::Get(get) => assert_eq!(get.key(), "hello"),
        other => panic!("expected a get, found {:?}", other),
    }

    let put = Command::Put { key: "hello".to_string(), value: b"world".to_vec() };
    let bytes = put.to_frame().encode();
    let mut cursor = Cursor::new(&bytes[..]);
    let frame = mini_redis::Frame::parse(&mut cursor).expect("a whole frame");
    match mini_redis::Command::from_frame(frame).expect("a command") {
        mini_redis::Command::Set(set) => {
            assert_eq!(set.key(), "hello");
            assert_eq!(&set.value()[..], b"world");
            assert_eq!(set.expire(), None);
        }
        other => panic!("expected a set, found {:?}", other),
    }
}

#[test]
fn requests_of_mini_redis_are_commands_to_this_library() {
    let get = Frame::Array(vec![Frame::Bulk(b"get".to_vec()), Frame::Bulk(b"hello".to_vec())]);
    assert_eq!(Command::from_frame(get), Ok(Command::Get { key: "hello".to_string() }));
    let set = Frame::Array(vec![
        Frame::Bulk(b"set".to_vec()),
        Frame::Bulk(b"hello".to_vec()),
        Frame::Bulk(b"world".to_vec()),
    ]);
    assert_eq!(
        Command::from_frame(set),
        Ok(Command::Put { key: "hello".to_string(), value: b"world".to_vec() })
    );
}
