use kvstore::store::Store;

#[test]
fn set_then_get_returns_value() {
    let mut s = Store::new(10);
    s.set("a".to_string(), "1".to_string(), None, 100);
    assert_eq!(s.get("a", 100), Some("1".to_string()));
    assert_eq!(s.get("a", 1_000_000), Some("1".to_string()));
}

#[test]
fn overwrite_replaces_value() {
    let mut s = Store::new(10);
    s.set("a".to_string(), "1".to_string(), None, 100);
    assert_eq!(s.get("a", 100), Some("1".to_string()));
    s.set("a".to_string(), "2".to_string(), None, 101);
    assert_eq!(s.get("a", 101), Some("2".to_string()));
}

#[test]
fn zero_ttl_expires_immediately() {
    let mut s = Store::new(10);
    s.set("k".to_string(), "v".to_string(), Some(0), 100);
    assert_eq!(s.get("k", 101), None);
}

#[test]
fn entry_valid_exactly_at_expiration_second() {
    let mut s = Store::new(10);
    s.set("b".to_string(), "3".to_string(), Some(1), 100);
    assert_eq!(s.get("b", 101), Some("3".to_string()));
    s.set("c".to_string(), "4".to_string(), Some(1), 100);
    assert_eq!(s.get("c", 102), None);
}

#[test]
fn missing_key_reads_absent() {
    let mut s = Store::new(10);
    assert_eq!(s.get("nope", 100), None);
}

#[test]
fn eviction_keeps_bound_and_drops_least_recently_used() {
    let mut s = Store::new(2);
    s.set("c".to_string(), "5".to_string(), None, 1);
    s.set("d".to_string(), "5".to_string(), None, 2);
    // Touch c so d is the least recently used.
    assert_eq!(s.get("c", 3), Some("5".to_string()));
    s.set("e".to_string(), "5".to_string(), None, 4);
    let mut snapshot = s.to_hashmap();
    snapshot.sort_by(|a, b| a.0.cmp(&b.0));
    let keys: Vec<&str> = snapshot.iter().map(|e| e.0.as_str()).collect();
    assert_eq!(keys, vec!["c", "e"]);
    assert!(snapshot.len() <= 2);
}

#[test]
fn distinct_keys_all_retrievable() {
    let mut s = Store::new(10);
    for i in 0..5u32 {
        s.set(format!("k{}", i), format!("v{}", i), None, 50);
    }
    for i in 0..5u32 {
        assert_eq!(s.get(&format!("k{}", i), 60), Some(format!("v{}", i)));
    }
}

#[test]
fn cleanup_removes_exactly_the_expired() {
    let mut s = Store::new(10);
    s.set("stale".to_string(), "1".to_string(), Some(5), 100);
    s.set("fresh".to_string(), "2".to_string(), Some(500), 100);
    s.set("forever".to_string(), "3".to_string(), None, 100);
    s.cleanup_expired(200);
    assert_eq!(s.get("stale", 200), None);
    assert_eq!(s.get("fresh", 200), Some("2".to_string()));
    assert_eq!(s.get("forever", 200), Some("3".to_string()));
}

#[test]
fn evict_if_needed_is_noop_within_bound() {
    let mut s = Store::new(2);
    s.set("a".to_string(), "1".to_string(), None, 1);
    s.evict_if_needed();
    assert_eq!(s.get("a", 2), Some("1".to_string()));
}

#[test]
fn from_hashmap_rebuilds_records() {
    let data = vec![
        ("a".to_string(), "1".to_string(), None, 7u64),
        ("b".to_string(), "2".to_string(), Some(1_000u64), 8u64),
    ];
    let mut s = Store::from_hashmap(data, 100);
    assert_eq!(s.get("a", 100), Some("1".to_string()));
    assert_eq!(s.get("b", 100), Some("2".to_string()));
    assert_eq!(s.get("b", 2_000), None);
}

#[test]
fn entry_holds_its_fields() {
    let e = kvstore::store::Entry { value: "v".to_string(), expires_at: Some(9), last_accessed: 3 };
    assert_eq!(e.value, "v");
    assert_eq!(e.expires_at, Some(9));
    assert_eq!(e.last_accessed, 3);
}

#[test]
fn expiry_saturates_instead_of_overflowing() {
    let mut s = Store::new(10);
    s.set("k".to_string(), "v".to_string(), Some(u64::MAX), u64::MAX - 1);
    assert_eq!(s.get("k", u64::MAX), Some("v".to_string()));
}
