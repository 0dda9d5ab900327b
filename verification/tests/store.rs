use redis_lite::store::{Store, Value};

#[test]
fn set_then_get_returns_the_value() {
    let mut store = Store::new();
    store.set("k".to_string(), b"v".to_vec(), None);
    assert_eq!(store.get("k"), Some(b"v".to_vec()));
    assert_eq!(store.get("k"), Some(b"v".to_vec()));
}

#[test]
fn get_of_a_missing_key() {
    let mut store = Store::new();
    assert_eq!(store.get("missing"), None);
}

#[test]
fn set_replaces_the_value() {
    let mut store = Store::new();
    store.set("k".to_string(), b"one".to_vec(), None);
    store.set("k".to_string(), b"two".to_vec(), None);
    assert_eq!(store.get("k"), Some(b"two".to_vec()));
    assert_eq!(store.get_snapshot().len(), 1);
}

#[test]
fn a_value_with_a_long_time_to_live_is_read() {
    let mut store = Store::new();
    store.set("k".to_string(), b"v".to_vec(), Some(3600));
    assert_eq!(store.get("k"), Some(b"v".to_vec()));
    store.cleanup_expired();
    assert_eq!(store.get("k"), Some(b"v".to_vec()));
}

#[test]
fn expiry_at_given_clock_readings() {
    let mut store = Store::new();
    store.set_at("k".to_string(), b"v".to_vec(), Some(2), 1_000);
    // expires at 1_000 + 2s
    assert_eq!(store.get_at("k", 2_000_001_000), Some(b"v".to_vec()));
    assert_eq!(store.get_at("k", 2_000_001_001), None);
    // the expired value was removed
    assert_eq!(store.get_at("k", 0), None);
}

#[test]
fn cleanup_removes_values_whose_expiry_is_reached() {
    let mut store = Store::new();
    store.set_at("a".to_string(), b"1".to_vec(), Some(1), 0);
    store.set_at("b".to_string(), b"2".to_vec(), Some(5), 0);
    store.set_at("c".to_string(), b"3".to_vec(), None, 0);
    // a sweep removes an entry whose expiry equals the reading
    store.cleanup_expired_at(1_000_000_000);
    assert_eq!(store.get_at("a", 0), None);
    assert_eq!(store.get_at("b", 0), Some(b"2".to_vec()));
    assert_eq!(store.get_at("c", u128::MAX), Some(b"3".to_vec()));
    store.cleanup_expired_at(u128::MAX);
    assert_eq!(store.get_at("b", 0), None);
    assert_eq!(store.get_at("c", 0), Some(b"3".to_vec()));
}

#[test]
fn snapshot_copies_every_entry() {
    let mut store = Store::new();
    store.set_at("a".to_string(), b"1".to_vec(), None, 0);
    store.set_at("b".to_string(), b"2".to_vec(), Some(1), 10);
    let mut snap: Vec<(String, Value)> = store.get_snapshot();
    snap.sort_by(|x, y| x.0.cmp(&y.0));
    assert_eq!(snap.len(), 2);
    assert_eq!(snap[0].0, "a");
    assert_eq!(snap[0].1.data, b"1".to_vec());
    assert_eq!(snap[0].1.expires_at, None);
    assert_eq!(snap[1].0, "b");
    assert_eq!(snap[1].1.expires_at, Some(1_000_000_010));
}

#[test]
fn clock_moves_forward() {
    let store = Store::new();
    let clock = store.clock();
    let a = clock.now();
    let b = clock.now();
    assert!(a <= b);
}
