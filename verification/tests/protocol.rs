use redis_lite::protocol::{
    decimal_bytes, encode_frame, end_of_stream, parse_bulk_string, parse_frame, read_number, Frame,
};

fn bulk_items(frame: &Frame) -> Vec<Vec<u8>> {
    match frame {
        Frame::Array(items) => items
            .iter()
            .map(|f| match f {
                Frame::Bulk(b) => b.clone(),
                other => panic!("not a bulk string: {:?}", other),
            })
            .collect(),
        other => panic!("not an array: {:?}", other),
    }
}

#[test]
fn parse_frame_reads_a_request() {
    let buf = b"*2\r\n$3\r\nGET\r\n$3\r\nkey\r\n";
    let (frame, consumed) = parse_frame(buf).unwrap().unwrap();
    assert_eq!(consumed, buf.len());
    assert_eq!(bulk_items(&frame), vec![b"GET".to_vec(), b"key".to_vec()]);
}

#[test]
fn parse_frame_leaves_following_bytes() {
    let buf = b"*1\r\n$4\r\nPING\r\n*1\r\n";
    let (frame, consumed) = parse_frame(buf).unwrap().unwrap();
    assert_eq!(consumed, 14);
    assert_eq!(bulk_items(&frame), vec![b"PING".to_vec()]);
}

#[test]
fn parse_frame_waits_without_an_array_marker() {
    assert!(matches!(parse_frame(b""), Ok(None)));
    assert!(matches!(parse_frame(b"+OK\r\n"), Ok(None)));
    assert!(matches!(parse_frame(b"GET key\r\n"), Ok(None)));
}

#[test]
fn parse_frame_rejects_a_non_bulk_element() {
    let buf = b"*1\r\n+OK\r\n";
    match parse_frame(buf) {
        Err(msg) => assert_eq!(msg, "Expected bulk string"),
        other => panic!("unexpected {:?}", other),
    }
}

#[test]
fn parse_frame_of_an_empty_array() {
    let (frame, consumed) = parse_frame(b"*0\r\n").unwrap().unwrap();
    assert_eq!(consumed, 4);
    assert!(bulk_items(&frame).is_empty());
}

#[test]
fn incomplete_requests_wait_for_more_bytes() {
    for buf in [
        &b"*"[..],
        b"*2\r",
        b"*2\r\n",
        b"*2\r\n$3\r\nGE",
        b"*2\r\n$3\r\nGET\r\n$1\r\n",
        b"*1\r\n$3\r\nSET",
        b"*99999\r\n$1\r\nx\r\n",
    ] {
        assert!(matches!(parse_frame(buf), Ok(None)), "{:?}", buf);
    }
}

#[test]
fn a_request_in_two_pieces() {
    let whole = b"*2\r\n$3\r\nGET\r\n$1\r\nk\r\n";
    let mut buffer = b"*2\r\n$3\r\nGE".to_vec();
    assert!(matches!(parse_frame(&buffer), Ok(None)));
    buffer.extend_from_slice(b"T\r\n$1\r\nk\r\n");
    let (frame, consumed) = parse_frame(&buffer).unwrap().unwrap();
    assert_eq!(consumed, whole.len());
    assert_eq!(bulk_items(&frame), vec![b"GET".to_vec(), b"k".to_vec()]);
}

#[test]
fn malformed_lengths_are_refused() {
    for buf in [
        &b"*-1\r\n"[..],
        b"*1x\r\n",
        b"*99999999999999999999\r\n",
        b"*1\r\n$-1\r\n",
        b"*1\r\n$a\r\nx\r\n",
    ] {
        match parse_frame(buf) {
            Err(msg) => assert_eq!(msg, "Invalid length", "{:?}", buf),
            other => panic!("unexpected {:?} for {:?}", other, buf),
        }
    }
}

#[test]
fn read_number_reads_decimal_lengths() {
    assert_eq!(read_number(b"12\r\n", 0), Ok(Some((12, 4))));
    assert_eq!(read_number(b"*305\r\nx", 1), Ok(Some((305, 6))));
    assert_eq!(read_number(b"\r\n", 0), Ok(Some((0, 2))));
    assert_eq!(read_number(b"9223372036854775807\r\n", 0), Ok(Some((i64::MAX, 21))));
    assert_eq!(read_number(b"9223372036854775808\r\n", 0), Err("Invalid length".to_string()));
    assert_eq!(read_number(b"1a\r\n", 0), Err("Invalid length".to_string()));
    assert_eq!(read_number(b"-1\r\n", 0), Err("Invalid length".to_string()));
    assert_eq!(read_number(b"12", 0), Ok(None));
    assert_eq!(read_number(b"1\r", 0), Ok(None));
}

#[test]
fn parse_bulk_string_reads_payload() {
    let buf = b"$5\r\nhello\r\n";
    let (data, next) = parse_bulk_string(buf, 0).unwrap().unwrap();
    assert_eq!(data, b"hello".to_vec());
    assert_eq!(next, buf.len());
    assert_eq!(parse_bulk_string(b"+5\r\n", 0).unwrap_err(), "Expected bulk string");
    assert_eq!(parse_bulk_string(b"$5\r\nhel", 0), Ok(None));
}

#[test]
fn encode_frame_writes_each_kind() {
    assert_eq!(encode_frame(&Frame::Simple("OK".to_string())).unwrap(), b"+OK\r\n".to_vec());
    assert_eq!(encode_frame(&Frame::Error("bad".to_string())).unwrap(), b"-bad\r\n".to_vec());
    assert_eq!(encode_frame(&Frame::Bulk(b"hi".to_vec())).unwrap(), b"$2\r\nhi\r\n".to_vec());
    assert_eq!(encode_frame(&Frame::Bulk(Vec::new())).unwrap(), b"$0\r\n\r\n".to_vec());
    assert_eq!(encode_frame(&Frame::Null).unwrap(), b"$-1\r\n".to_vec());
    assert_eq!(encode_frame(&Frame::Simple("é".to_string())).unwrap(), "+é\r\n".as_bytes().to_vec());
    assert_eq!(
        encode_frame(&Frame::Array(Vec::new())).unwrap_err(),
        "Array write not implemented"
    );
}

#[test]
fn decimal_bytes_writes_digits() {
    assert_eq!(decimal_bytes(0), b"0".to_vec());
    assert_eq!(decimal_bytes(7), b"7".to_vec());
    assert_eq!(decimal_bytes(1234), b"1234".to_vec());
    assert_eq!(decimal_bytes(usize::MAX), usize::MAX.to_string().into_bytes());
}

#[test]
fn written_bulk_strings_read_back() {
    for payload in [&b""[..], b"x", b"hello world", &[0u8, 13, 10, 255][..]] {
        let bytes = encode_frame(&Frame::Bulk(payload.to_vec())).unwrap();
        let (data, next) = parse_bulk_string(&bytes, 0).unwrap().unwrap();
        assert_eq!(data, payload.to_vec());
        assert_eq!(next, bytes.len());
    }
}

#[test]
fn end_of_stream_outcomes() {
    assert!(matches!(end_of_stream(b""), Ok(None)));
    match end_of_stream(b"*1\r\n") {
        Err(msg) => assert_eq!(msg, "connection closed unexpectedly"),
        other => panic!("unexpected {:?}", other),
    }
}
