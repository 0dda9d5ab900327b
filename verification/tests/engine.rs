use redis_lite::command::Command;
use redis_lite::engine::{execute, response_for, Reply};
use redis_lite::protocol::{encode_frame, Frame};
use redis_lite::store::Store;

fn set(key: &str, value: &[u8]) -> Command {
    Command::SetValue { key: key.to_string(), value: value.to_vec() }
}

fn get(key: &str) -> Command {
    Command::Get { key: key.to_string() }
}

#[test]
fn execute_set_then_get() {
    let mut store = Store::new();
    assert!(matches!(execute(&mut store, set("k", b"hello")), Reply::Written));
    match execute(&mut store, get("k")) {
        Reply::Found(v) => assert_eq!(v, b"hello".to_vec()),
        other => panic!("unexpected {:?}", other),
    }
}

#[test]
fn execute_get_of_a_missing_key() {
    let mut store = Store::new();
    assert!(matches!(execute(&mut store, get("nope")), Reply::Nil));
}

#[test]
fn replies_are_binary_safe() {
    let mut store = Store::new();
    execute(&mut store, set("k", &[0x61, 0xff, 0x00]));
    match execute(&mut store, get("k")) {
        Reply::Found(v) => assert_eq!(v, vec![0x61, 0xff, 0x00]),
        other => panic!("unexpected {:?}", other),
    }
}

#[test]
fn responses_for_replies() {
    assert!(matches!(response_for(Reply::Nil), Frame::Null));
    match response_for(Reply::Written) {
        Frame::Bulk(b) => assert_eq!(b, b"OK".to_vec()),
        other => panic!("unexpected {:?}", other),
    }
    match response_for(Reply::Found(vec![0xff, 0x0d])) {
        Frame::Bulk(b) => assert_eq!(b, vec![0xff, 0x0d]),
        other => panic!("unexpected {:?}", other),
    }
}

#[test]
fn a_stored_nil_text_is_a_value() {
    let mut store = Store::new();
    execute(&mut store, set("k", b"(nil)"));
    let reply = execute(&mut store, get("k"));
    let bytes = encode_frame(&response_for(reply)).unwrap();
    assert_eq!(bytes, b"$5\r\n(nil)\r\n".to_vec());
    let missing = encode_frame(&response_for(execute(&mut store, get("other")))).unwrap();
    assert_eq!(missing, b"$-1\r\n".to_vec());
}
