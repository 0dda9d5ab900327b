use redis_lite::aof::{
    bytes_eq_ignore_ascii_case, parse_bulk, parse_set_record, restore, serialize_command,
    snapshot_record, AofState,
};
use redis_lite::command::Command;
use redis_lite::store::{Store, Value};

fn set(key: &str, value: &[u8]) -> Command {
    Command::SetValue { key: key.to_string(), value: value.to_vec() }
}

#[test]
fn restore_ignores_malformed_bulk_lengths_without_panicking() {
    let mut store = Store::new();
    let data = b"*3\r\n$3\r\nSET\r\n$x\r\nkey\r\n$5\r\nvalue\r\n";
    restore(data, &mut store);
    assert_eq!(store.get("key"), None);
}

#[test]
fn serialize_command_writes_set_records() {
    assert_eq!(
        serialize_command(&set("key", b"value")).unwrap(),
        b"*3\r\n$3\r\nSET\r\n$3\r\nkey\r\n$5\r\nvalue\r\n".to_vec()
    );
    assert_eq!(
        serialize_command(&set("é", b"")).unwrap(),
        b"*3\r\n$3\r\nSET\r\n$2\r\n\xc3\xa9\r\n$0\r\n\r\n".to_vec()
    );
    assert!(serialize_command(&Command::Get { key: "key".to_string() }).is_none());
}

#[test]
fn parse_bulk_reads_and_moves_on() {
    let data = b"$3\r\nabc\r\n$1\r\nz\r\n";
    let mut i = 0;
    assert_eq!(parse_bulk(data, &mut i), Some(&b"abc"[..]));
    assert_eq!(i, 9);
    assert_eq!(parse_bulk(data, &mut i), Some(&b"z"[..]));
    assert_eq!(i, data.len());
}

#[test]
fn parse_bulk_gives_up_on_malformed_bytes() {
    for data in [
        &b"$x\r\nkey\r\n"[..],
        b"$\r\n\r\n",
        b"$3\r\nab",
        b"$3\r\nabcd\r\n",
        b"$3\nabc\r\n",
        b"#3\r\nabc\r\n",
        b"",
        b"$99999999999999999999999\r\n",
        b"$18446744073709551615\r\n",
    ] {
        let mut i = 0;
        assert_eq!(parse_bulk(data, &mut i), None, "{:?}", data);
    }
}

#[test]
fn set_records_are_read_back() {
    let data = b"*3\r\n$3\r\nset\r\n$1\r\nk\r\n$2\r\nv1\r\n";
    let mut i = 0;
    let parts = parse_set_record(data, &mut i).unwrap();
    assert_eq!(parts, vec![&b"set"[..], &b"k"[..], &b"v1"[..]]);
    assert_eq!(i, data.len());
    let other = b"*3\r\n$3\r\nDEL\r\n$1\r\nk\r\n$2\r\nv1\r\n";
    let mut j = 0;
    assert!(parse_set_record(other, &mut j).is_none());
    let mut k = 0;
    assert!(parse_set_record(b"*2\r\n$3\r\nSET\r\n$1\r\nk\r\n", &mut k).is_none());
}

#[test]
fn restore_replays_writes_in_order() {
    let mut log = Vec::new();
    log.extend(serialize_command(&set("a", b"1")).unwrap());
    log.extend(serialize_command(&set("b", b"2")).unwrap());
    log.extend(serialize_command(&set("a", b"3")).unwrap());
    log.extend(serialize_command(&set("clé", b"\xff")).unwrap());
    let mut store = Store::new();
    restore(&log, &mut store);
    assert_eq!(store.get("a"), Some(b"3".to_vec()));
    assert_eq!(store.get("b"), Some(b"2".to_vec()));
    assert_eq!(store.get("clé"), Some(b"\xff".to_vec()));
    assert_eq!(store.get_snapshot().len(), 3);
}

#[test]
fn restore_stops_at_the_first_bad_record() {
    let mut log = Vec::new();
    log.extend(serialize_command(&set("a", b"1")).unwrap());
    log.extend_from_slice(b"garbage");
    log.extend(serialize_command(&set("b", b"2")).unwrap());
    let mut store = Store::new();
    restore(&log, &mut store);
    assert_eq!(store.get("a"), Some(b"1".to_vec()));
    assert_eq!(store.get("b"), None);
}

#[test]
fn replay_stops_at_a_length_past_the_address_space() {
    let mut log = serialize_command(&set("a", b"1")).unwrap();
    log.extend(format!("*3\r\n$3\r\nSET\r\n${}\r\nk\r\n", usize::MAX).into_bytes());
    let mut store = Store::new();
    restore(&log, &mut store);
    assert_eq!(store.get("a"), Some(b"1".to_vec()));
    assert_eq!(store.get_snapshot().len(), 1);
}

#[test]
fn case_insensitive_comparison() {
    assert!(bytes_eq_ignore_ascii_case(b"SeT", b"set"));
    assert!(!bytes_eq_ignore_ascii_case(b"SET", b"SETS"));
    assert!(!bytes_eq_ignore_ascii_case(b"S-T", b"SET"));
    assert!(!bytes_eq_ignore_ascii_case(b"[", b"{"));
}

fn state(buffer: &[u8], file: Option<u32>, rewrite: Option<&[u8]>) -> AofState<u32> {
    AofState { buffer: buffer.to_vec(), file, rewrite_buffer: rewrite.map(|r| r.to_vec()) }
}

#[test]
fn flush_now_keeps_buffer_when_file_is_unavailable() {
    let mut st = state(b"pending", None, None);
    assert!(st.take_for_flush().is_none());
    assert_eq!(st.buffer, b"pending".to_vec());
}

#[test]
fn take_for_flush_takes_buffer_and_file() {
    let mut st = state(b"pending", Some(7), None);
    let (buf, file) = st.take_for_flush().unwrap();
    assert_eq!(buf, b"pending".to_vec());
    assert_eq!(file, 7);
    assert!(st.buffer.is_empty());
    assert!(st.file.is_none());
}

#[test]
fn append_logs_writes_only() {
    let mut st = state(b"", Some(1), None);
    st.append(&Command::Get { key: "k".to_string() });
    assert!(st.buffer.is_empty());
    st.append(&set("k", b"v"));
    assert_eq!(st.buffer, serialize_command(&set("k", b"v")).unwrap());
    assert!(st.rewrite_buffer.is_none());
}

#[test]
fn append_during_a_rewrite_logs_twice() {
    let mut st = state(b"old", Some(1), None);
    assert!(!st.rewrite_running());
    assert!(st.try_start_rewrite());
    assert!(st.rewrite_running());
    assert!(!st.try_start_rewrite());
    st.append(&set("k", b"v"));
    let rec = serialize_command(&set("k", b"v")).unwrap();
    let mut expected = b"old".to_vec();
    expected.extend(rec.clone());
    assert_eq!(st.buffer, expected);
    assert_eq!(st.rewrite_buffer, Some(rec.clone()));
    assert_eq!(st.take_rewrite_chunk(), rec);
    assert_eq!(st.rewrite_buffer, Some(Vec::new()));
    st.cancel_rewrite();
    assert!(!st.rewrite_running());
}

#[test]
fn take_pending_for_the_periodic_flush() {
    let mut st = state(b"", Some(3), None);
    assert!(st.take_pending().is_none());
    assert_eq!(st.file, Some(3));
    let mut st = state(b"abc", Some(4), None);
    let (buf, file) = st.take_pending().unwrap();
    assert_eq!(buf, b"abc".to_vec());
    assert_eq!(file, 4);
    assert!(st.buffer.is_empty());
    assert!(st.file.is_none());
}

#[test]
fn pending_records_wait_while_the_file_is_held_elsewhere() {
    let mut st = state(b"abc", None, None);
    assert!(st.take_pending().is_none());
    assert_eq!(st.buffer, b"abc".to_vec());
    st.file = Some(5);
    let (buf, file) = st.take_pending().unwrap();
    assert_eq!(buf, b"abc".to_vec());
    assert_eq!(file, 5);
}

#[test]
fn take_for_swap_waits_for_the_file() {
    let mut st = state(b"x", None, Some(b"tail"));
    assert!(st.take_for_swap().is_none());
    assert_eq!(st.rewrite_buffer, Some(b"tail".to_vec()));
    let mut st = state(b"x", Some(9), Some(b"tail"));
    let (file, last) = st.take_for_swap().unwrap();
    assert_eq!(file, 9);
    assert_eq!(last, b"tail".to_vec());
    assert!(st.rewrite_buffer.is_none());
    assert!(st.file.is_none());
    assert_eq!(st.buffer, b"x".to_vec());
}

#[test]
fn a_rewrite_hands_out_every_write_logged_while_it_runs() {
    let mut st = state(b"", Some(2), None);
    assert!(st.try_start_rewrite());
    st.append(&set("a", b"1"));
    let mut handed = st.take_rewrite_chunk();
    st.append(&Command::Get { key: "a".to_string() });
    let (buf, file) = st.take_pending().unwrap();
    st.append(&set("b", b"2"));
    st.file = Some(file);
    handed.extend(st.take_rewrite_chunk());
    st.append(&set("c", b""));
    let (_, last) = st.take_for_swap().unwrap();
    handed.extend(last);
    let mut expected = serialize_command(&set("a", b"1")).unwrap();
    assert_eq!(buf, expected);
    expected.extend(serialize_command(&set("b", b"2")).unwrap());
    expected.extend(serialize_command(&set("c", b"")).unwrap());
    assert_eq!(handed, expected);
    assert!(!st.rewrite_running());
}

#[test]
fn rewrite_records_replay_to_the_live_entries() {
    let entries = vec![
        ("a".to_string(), Value { data: b"1".to_vec(), expires_at: None }),
        ("b".to_string(), Value { data: b"2".to_vec(), expires_at: Some(5) }),
        ("c".to_string(), Value { data: b"3".to_vec(), expires_at: Some(500) }),
    ];
    let mut log = Vec::new();
    for e in &entries {
        if let Some(rec) = snapshot_record(e, 100) {
            log.extend(rec);
        }
    }
    assert!(snapshot_record(&entries[1], 100).is_none());
    assert_eq!(snapshot_record(&entries[1], 5), Some(serialize_command(&set("b", b"2")).unwrap()));
    let mut store = Store::new();
    restore(&log, &mut store);
    assert_eq!(store.get("a"), Some(b"1".to_vec()));
    assert_eq!(store.get("b"), None);
    assert_eq!(store.get("c"), Some(b"3".to_vec()));
    // restored values carry no expiry
    let snap = store.get_snapshot();
    assert!(snap.iter().all(|(_, v)| v.expires_at.is_none()));
}

#[test]
fn the_rewritten_log_restores_the_snapshot_and_every_later_write() {
    let entries = vec![
        ("a".to_string(), Value { data: b"1".to_vec(), expires_at: None }),
        ("b".to_string(), Value { data: b"2".to_vec(), expires_at: Some(5) }),
        ("c".to_string(), Value { data: b"3".to_vec(), expires_at: Some(500) }),
    ];
    let mut st = state(b"", Some(1), None);
    assert!(st.try_start_rewrite());
    let mut log = Vec::new();
    for e in &entries {
        if let Some(rec) = snapshot_record(e, 100) {
            log.extend(rec);
        }
    }
    st.append(&set("a", b"10"));
    let (_, file) = st.take_for_flush().unwrap();
    st.file = Some(file);
    log.extend(st.take_rewrite_chunk());
    st.append(&set("d", b"4"));
    st.append(&set("c", b"30"));
    let (_, last) = st.take_for_swap().unwrap();
    log.extend(last);
    st.append(&set("e", b"5"));
    log.extend(st.buffer.clone());
    let mut store = Store::new();
    restore(&log, &mut store);
    assert_eq!(store.get("a"), Some(b"10".to_vec()));
    assert_eq!(store.get("b"), None);
    assert_eq!(store.get("c"), Some(b"30".to_vec()));
    assert_eq!(store.get("d"), Some(b"4".to_vec()));
    assert_eq!(store.get("e"), Some(b"5".to_vec()));
    assert_eq!(store.get_snapshot().len(), 4);
}

#[test]
fn a_logged_write_decodes_as_a_request() {
    let rec = serialize_command(&set("k", b"v")).unwrap();
    let (frame, consumed) = redis_lite::protocol::parse_frame(&rec).unwrap().unwrap();
    assert_eq!(consumed, rec.len());
    match Command::from_frame(frame) {
        Ok(Command::SetValue { key, value }) => {
            assert_eq!(key, "k");
            assert_eq!(value, b"v".to_vec());
        }
        other => panic!("unexpected {:?}", other),
    }
}
