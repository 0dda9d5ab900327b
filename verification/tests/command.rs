use redis_lite::command::Command;
use redis_lite::protocol::Frame;

fn bulk(b: &[u8]) -> Frame {
    Frame::Bulk(b.to_vec())
}

fn request(items: Vec<Frame>) -> Frame {
    Frame::Array(items)
}

fn err_of(frame: Frame) -> String {
    match Command::from_frame(frame) {
        Err(e) => e,
        Ok(c) => panic!("unexpected command {:?}", c),
    }
}

#[test]
fn from_frame_reads_set() {
    match Command::from_frame(request(vec![bulk(b"SET"), bulk(b"k"), bulk(b"v1")])) {
        Ok(Command::SetValue { key, value }) => {
            assert_eq!(key, "k");
            assert_eq!(value, b"v1".to_vec());
        }
        other => panic!("unexpected {:?}", other),
    }
}

#[test]
fn from_frame_ignores_case_of_the_name() {
    match Command::from_frame(request(vec![bulk(b"get"), bulk(b"k")])) {
        Ok(Command::Get { key }) => assert_eq!(key, "k"),
        other => panic!("unexpected {:?}", other),
    }
    match Command::from_frame(request(vec![bulk(b"sEt"), bulk(b"a"), bulk(b"b")])) {
        Ok(Command::SetValue { key, value }) => {
            assert_eq!(key, "a");
            assert_eq!(value, b"b".to_vec());
        }
        other => panic!("unexpected {:?}", other),
    }
    // the long s upper-cases to S
    match Command::from_frame(request(vec![bulk("ſet".as_bytes()), bulk(b"a"), bulk(b"b")])) {
        Ok(Command::SetValue { .. }) => {}
        other => panic!("unexpected {:?}", other),
    }
}

#[test]
fn from_frame_ignores_extra_arguments() {
    match Command::from_frame(request(vec![bulk(b"GET"), bulk(b"k"), bulk(b"extra")])) {
        Ok(Command::Get { key }) => assert_eq!(key, "k"),
        other => panic!("unexpected {:?}", other),
    }
}

#[test]
fn from_frame_decodes_keys_leniently() {
    match Command::from_frame(request(vec![bulk(b"GET"), bulk(&[0x66, 0xff])])) {
        Ok(Command::Get { key }) => assert_eq!(key, "f\u{FFFD}"),
        other => panic!("unexpected {:?}", other),
    }
}

#[test]
fn from_frame_errors() {
    assert_eq!(err_of(request(vec![])), "Empty command");
    assert_eq!(err_of(request(vec![Frame::Null])), "Invalid command");
    assert_eq!(err_of(Frame::Simple("SET".to_string())), "Invalid frame");
    assert_eq!(err_of(request(vec![bulk(b"PING")])), "Unknown command");
    assert_eq!(err_of(request(vec![bulk(b"SET"), Frame::Null])), "Invalid key");
    assert_eq!(err_of(request(vec![bulk(b"SET"), bulk(b"k"), Frame::Null])), "Invalid value");
    assert_eq!(err_of(request(vec![bulk(b"GET"), Frame::Null])), "Invalid key");
}

#[test]
fn missing_arguments_are_refused() {
    assert_eq!(err_of(request(vec![bulk(b"SET")])), "Invalid key");
    assert_eq!(err_of(request(vec![bulk(b"SET"), bulk(b"k")])), "Invalid value");
    assert_eq!(err_of(request(vec![bulk(b"GET")])), "Invalid key");
    assert_eq!(err_of(request(vec![bulk(b"set"), Frame::Null])), "Invalid key");
}
