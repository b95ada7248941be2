use kv_wire::command::Command;
use kv_wire::connection::{Connection, ConnectionError, ReadStep};
use kv_wire::frame::Frame;
use kv_wire::manager::{Event, Manager, Next, PendingRequest};
use kv_wire::reply::{ClientError, Reply};
use kv_wire::server::{process, Turn};
use kv_wire::store::Store;
use kv_wire::wire::Malformation;

/// A server-side handler without a socket: bytes in, bytes out.
struct Handler {
    connection: Connection,
    open: bool,
}

impl Handler {
    fn new() -> Handler {
        Handler { connection: Connection::new(), open: true }
    }

    /// Hands `chunk` to the handler as one read from the stream, and gives
    /// back what the handler writes until it wants to read again.
    fn deliver(&mut self, store: &mut Store, chunk: &[u8]) -> Vec<u8> {
        let mut written = Vec::new();
        let mut step = self.connection.receive(chunk);
        loop {
            match process(step) {
                Turn::Execute(command) => {
                    written.extend_from_slice(&store.apply(command).encode());
                    step = self.connection.read_frame();
                }
                Turn::Refuse(answer) => {
                    written.extend_from_slice(&answer.encode());
                    self.open = false;
                    return written;
                }
                Turn::Read => return written,
                Turn::Finished | Turn::Failed(_) => {
                    self.open = false;
                    return written;
                }
            }
        }
    }
}

/// Carries one request through a manager and a handler that are joined by a
/// stream which delivers `chunk` bytes at a time.
fn call(
    manager: &mut Manager<u32>,
    handler: &mut Handler,
    store: &mut Store,
    command: Command,
    chunk: usize,
) -> Result<Reply, ClientError> {
    let sent = match manager.step(Event::Request(PendingRequest { command, reply_channel: 0 })).next
    {
        Next::Send(bytes) => bytes,
        other => panic!("expected to send, got {:?}", other),
    };
    let mut answer = Vec::new();
    for piece in sent.chunks(chunk) {
        answer.extend_from_slice(&handler.deliver(store, piece));
    }
    let mut decision = manager.step(Event::Sent);
    let mut pieces = answer.chunks(chunk);
    while decision.next == Next::Read {
        let piece = pieces.next().map(|piece| piece.to_vec()).unwrap_or_default();
        decision = manager.step(Event::Arrived(piece));
    }
    decision.resolved.expect("the request is resolved").result
}

fn connected() -> Manager<u32> {
    let mut manager = Manager::new();
    manager.step(Event::Connected);
    manager
}

fn get(key: &str) -> Command {
    Command::Get { key: key.to_string() }
}

fn put(key: &str, value: &[u8]) -> Command {
    Command::Put { key: key.to_string(), value: value.to_vec() }
}

#[test]
fn end_to_end_set_get_missing() {
    let mut store = Store::new();
    let mut handler = Handler::new();
    let mut client = connected();
    assert_eq!(
        call(&mut client, &mut handler, &mut store, put("hello", b"world"), 4096),
        Ok(Reply::Done)
    );
    assert_eq!(
        call(&mut client, &mut handler, &mut store, get("hello"), 4096),
        Ok(Reply::Value(Some(b"world".to_vec())))
    );
    assert_eq!(
        call(&mut client, &mut handler, &mut store, get("missing"), 4096),
        Ok(Reply::Value(None))
    );
    assert!(handler.open);
}

#[test]
fn end_to_end_over_a_stream_of_single_bytes() {
    let mut store = Store::new();
    let mut handler = Handler::new();
    let mut client = connected();
    assert_eq!(
        call(&mut client, &mut handler, &mut store, put("hello", b"world"), 1),
        Ok(Reply::Done)
    );
    assert_eq!(
        call(&mut client, &mut handler, &mut store, get("hello"), 1),
        Ok(Reply::Value(Some(b"world".to_vec())))
    );
    assert_eq!(
        call(&mut client, &mut handler, &mut store, get("missing"), 3),
        Ok(Reply::Value(None))
    );
}

#[test]
fn value_put_on_one_connection_is_read_on_another() {
    let mut store = Store::new();
    let mut first_handler = Handler::new();
    let mut second_handler = Handler::new();
    let mut first = connected();
    let mut second = connected();
    assert_eq!(
        call(&mut first, &mut first_handler, &mut store, put("k", b"v"), 5),
        Ok(Reply::Done)
    );
    assert_eq!(
        call(&mut second, &mut second_handler, &mut store, get("k"), 5),
        Ok(Reply::Value(Some(b"v".to_vec())))
    );
}

#[test]
fn manager_keeps_the_order_of_submission() {
    let mut store = Store::new();
    let mut handler = Handler::new();
    let mut manager = connected();
    assert_eq!(
        call(&mut manager, &mut handler, &mut store, put("a", b"1"), 2),
        Ok(Reply::Done)
    );
    assert_eq!(
        call(&mut manager, &mut handler, &mut store, put("a", b"2"), 2),
        Ok(Reply::Done)
    );
    assert_eq!(store.get("a"), Some(b"2".to_vec()));
    assert_eq!(
        call(&mut manager, &mut handler, &mut store, get("a"), 2),
        Ok(Reply::Value(Some(b"2".to_vec())))
    );
}

#[test]
fn malformed_frame_closes_its_connection_and_no_other() {
    let mut store = Store::new();
    let mut bad = Handler::new();
    let mut good = Handler::new();
    let mut client = connected();
    assert_eq!(
        call(&mut client, &mut good, &mut store, put("hello", b"world"), 4096),
        Ok(Reply::Done)
    );

    assert_eq!(bad.deliver(&mut store, b"$abc\r\n"), Vec::<u8>::new());
    assert!(!bad.open);
    assert_eq!(
        bad.connection.read_frame(),
        ReadStep::Failed(ConnectionError::Malformed(Malformation::InvalidNumber))
    );

    assert!(good.open);
    assert_eq!(
        call(&mut client, &mut good, &mut store, get("hello"), 4096),
        Ok(Reply::Value(Some(b"world".to_vec())))
    );
    assert_eq!(
        call(&mut client, &mut good, &mut store, put("hello", b"again"), 4096),
        Ok(Reply::Done)
    );
    assert_eq!(store.get("hello"), Some(b"again".to_vec()));
}

#[test]
fn unsupported_command_is_answered_with_an_error_and_closes() {
    let mut store = Store::new();
    let mut handler = Handler::new();
    let request = Frame::Array(vec![
        Frame::Bulk(b"PUBLISH".to_vec()),
        Frame::Bulk(b"channel".to_vec()),
        Frame::Bulk(b"message".to_vec()),
    ]);
    assert_eq!(
        handler.deliver(&mut store, &request.encode()),
        b"-ERR unsupported command\r\n".to_vec()
    );
    assert!(!handler.open);
    assert_eq!(store.len(), 0);
}

#[test]
fn several_requests_in_one_chunk_are_answered_in_order() {
    let mut store = Store::new();
    let mut handler = Handler::new();
    let mut bytes = put("a", b"1").to_frame().encode();
    bytes.extend_from_slice(&get("a").to_frame().encode());
    bytes.extend_from_slice(&get("b").to_frame().encode());
    assert_eq!(
        handler.deliver(&mut store, &bytes),
        b"+OK\r\n$1\r\n1\r\n$-1\r\n".to_vec()
    );
    assert!(handler.open);
}

#[test]
fn clean_close_ends_the_handler() {
    let mut store = Store::new();
    let mut handler = Handler::new();
    assert_eq!(handler.deliver(&mut store, &put("a", b"1").to_frame().encode()), b"+OK\r\n");
    assert_eq!(handler.deliver(&mut store, &[]), Vec::<u8>::new());
    assert!(!handler.open);
    assert_eq!(store.get("a"), Some(b"1".to_vec()));
}
