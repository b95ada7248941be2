use kv_wire::command::Command;
use kv_wire::frame::Frame;
use kv_wire::store::Store;

fn get(key: &str) -> Command {
    Command::Get { key: key.to_string() }
}

fn put(key: &str, value: &[u8]) -> Command {
    Command::Put { key: key.to_string(), value: value.to_vec() }
}

#[test]
fn new_store_is_empty() {
    let store = Store::new();
    assert_eq!(store.len(), 0);
    assert_eq!(store.get("hello"), None);
}

#[test]
fn set_then_get() {
    let mut store = Store::new();
    store.set("hello".to_string(), b"world".to_vec());
    assert_eq!(store.get("hello"), Some(b"world".to_vec()));
    assert_eq!(store.get("hell"), None);
    assert_eq!(store.get("hello "), None);
    assert_eq!(store.len(), 1);
}

#[test]
fn set_overwrites() {
    let mut store = Store::new();
    store.set("a".to_string(), b"1".to_vec());
    store.set("b".to_string(), b"x".to_vec());
    store.set("a".to_string(), b"2".to_vec());
    assert_eq!(store.get("a"), Some(b"2".to_vec()));
    assert_eq!(store.get("b"), Some(b"x".to_vec()));
    assert_eq!(store.len(), 2);
}

#[test]
fn empty_key_and_empty_value_are_held() {
    let mut store = Store::new();
    store.set(String::new(), Vec::new());
    assert_eq!(store.get(""), Some(Vec::new()));
    assert_eq!(store.len(), 1);
}

#[test]
fn apply_put_answers_ok() {
    let mut store = Store::new();
    assert_eq!(store.apply(put("hello", b"world")), Frame::Simple("OK".to_string()));
    assert_eq!(store.get("hello"), Some(b"world".to_vec()));
}

#[test]
fn apply_get_answers_the_value_or_null() {
    let mut store = Store::new();
    assert_eq!(store.apply(get("hello")), Frame::Null);
    store.apply(put("hello", b"world"));
    assert_eq!(store.apply(get("hello")), Frame::Bulk(b"world".to_vec()));
    assert_eq!(store.apply(get("missing")), Frame::Null);
    assert_eq!(store.len(), 1);
}

#[test]
fn put_then_get_with_other_keys_in_between() {
    let mut store = Store::new();
    store.apply(put("k", b"v"));
    store.apply(put("other", b"1"));
    store.apply(get("k"));
    store.apply(put("another", b"2"));
    assert_eq!(store.apply(get("k")), Frame::Bulk(b"v".to_vec()));
}

#[test]
fn last_writer_wins_in_either_order() {
    let mut one = Store::new();
    one.apply(put("k", b"first"));
    one.apply(put("k", b"second"));
    assert_eq!(one.apply(get("k")), Frame::Bulk(b"second".to_vec()));
    assert_eq!(one.len(), 1);

    let mut other = Store::new();
    other.apply(put("k", b"second"));
    other.apply(put("k", b"first"));
    assert_eq!(other.apply(get("k")), Frame::Bulk(b"first".to_vec()));
    assert_eq!(other.len(), 1);
}

#[test]
fn zero_length_value_is_a_value() {
    let mut store = Store::new();
    store.apply(put("k", b""));
    assert_eq!(store.apply(get("k")), Frame::Bulk(Vec::new()));
}
