use kvstore::persistence::{load, save};
use kvstore::store::Store;
use kvstore::wal::{append_set, parse_wal_line, replay};

#[test]
fn wal_records_render_exact_bytes() {
    assert_eq!(append_set("k", "v", None), b"SET k v\n");
    assert_eq!(append_set("k", "v", Some(30)), b"SET k v 30\n");
    assert_eq!(append_set("key", "", Some(0)), b"SET key  0\n");
}

#[test]
fn wal_lines_parse_back() {
    assert_eq!(
        parse_wal_line(b"SET k v"),
        Some(("k".to_string(), "v".to_string(), None))
    );
    assert_eq!(
        parse_wal_line(b"SET k v 30"),
        Some(("k".to_string(), "v".to_string(), Some(30)))
    );
    // Runs of spaces count as one separator.
    assert_eq!(
        parse_wal_line(b"SET  k   v"),
        Some(("k".to_string(), "v".to_string(), None))
    );
}

#[test]
fn wal_lines_of_other_shapes_are_skipped() {
    assert_eq!(parse_wal_line(b"DEL k v"), None);
    // A fourth token that is no number makes the whole record malformed.
    assert_eq!(parse_wal_line(b"SET k v soon"), None);
    assert_eq!(parse_wal_line(b"SET k v 99999999999999999999"), None);
    assert_eq!(parse_wal_line(b"SET k"), None);
    assert_eq!(parse_wal_line(b"SET k v 1 2"), None);
    assert_eq!(parse_wal_line(b""), None);
    assert_eq!(parse_wal_line(b"set k v"), None);
}

#[test]
fn replay_applies_records_in_order() {
    let mut log = Vec::new();
    log.extend_from_slice(&append_set("a", "1", None));
    log.extend_from_slice(&append_set("a", "2", None));
    log.extend_from_slice(&append_set("b", "3", Some(1_000)));
    let mut s = Store::new(10);
    replay(&mut s, &log, 100);
    assert_eq!(s.get("a", 100), Some("2".to_string()));
    assert_eq!(s.get("b", 100), Some("3".to_string()));
    assert_eq!(s.get("b", 2_000), None);
}

#[test]
fn replay_skips_malformed_records() {
    let mut log = Vec::new();
    log.extend_from_slice(&append_set("a", "1", None));
    log.extend_from_slice(b"garbage line\n");
    log.extend_from_slice(b"SET c 3 soon\n");
    log.extend_from_slice(&append_set("b", "2", None));
    let mut s = Store::new(10);
    replay(&mut s, &log, 100);
    assert_eq!(s.get("a", 100), Some("1".to_string()));
    assert_eq!(s.get("b", 100), Some("2".to_string()));
    // The record with the unreadable TTL was skipped, not applied.
    assert_eq!(s.get("c", 100), None);
    assert_eq!(s.to_hashmap().len(), 2);
}

#[test]
fn replay_twice_equals_replay_once() {
    let mut log = Vec::new();
    log.extend_from_slice(&append_set("a", "1", None));
    log.extend_from_slice(&append_set("a", "2", None));
    log.extend_from_slice(&append_set("b", "3", None));
    let mut once = Store::new(10);
    replay(&mut once, &log, 100);
    let mut twice = Store::new(10);
    replay(&mut twice, &log, 100);
    replay(&mut twice, &log, 100);
    let mut left = once.to_hashmap();
    let mut right = twice.to_hashmap();
    left.sort_by(|a, b| a.0.cmp(&b.0));
    right.sort_by(|a, b| a.0.cmp(&b.0));
    assert_eq!(left, right);
}

#[test]
fn replay_of_empty_log_changes_nothing() {
    let mut s = Store::new(10);
    replay(&mut s, b"", 100);
    assert_eq!(s.to_hashmap().len(), 0);
}

#[test]
fn snapshot_roundtrip_reproduces_the_mapping() {
    let mut s = Store::new(10);
    s.set("a".to_string(), "1".to_string(), None, 100);
    s.set("b".to_string(), "2".to_string(), Some(500), 100);
    let bytes = save(&mut s);
    let mut loaded = load(&bytes, 10).expect("a saved snapshot loads");
    let mut left = s.to_hashmap();
    let mut right = loaded.to_hashmap();
    left.sort_by(|a, b| a.0.cmp(&b.0));
    right.sort_by(|a, b| a.0.cmp(&b.0));
    assert_eq!(left, right);
    assert_eq!(loaded.get("a", 200), Some("1".to_string()));
    assert_eq!(loaded.get("b", 200), Some("2".to_string()));
    // The expiration metadata survives the round trip.
    assert_eq!(loaded.get("b", 1_000), None);
}

#[test]
fn empty_snapshot_roundtrips() {
    let mut s = Store::new(10);
    let bytes = save(&mut s);
    let mut loaded = load(&bytes, 10).expect("an empty snapshot loads");
    assert_eq!(loaded.to_hashmap().len(), 0);
}

#[test]
fn corrupt_snapshots_are_rejected() {
    assert!(load(b"", 10).is_none());
    assert!(load(b"junk", 10).is_none());
    let mut s = Store::new(10);
    s.set("a".to_string(), "1".to_string(), None, 100);
    let bytes = save(&mut s);
    // A truncated snapshot is no snapshot.
    assert!(load(&bytes[..bytes.len() - 1], 10).is_none());
    // Trailing bytes are no snapshot either.
    let mut padded = bytes.clone();
    padded.push(0);
    assert!(load(&padded, 10).is_none());
}

#[test]
fn restart_recovers_the_store_from_the_log() {
    // A process stores a key, appending the record to its log first.
    let mut before = Store::new(10);
    let mut log = Vec::new();
    let record = append_set("x", "9", None);
    log.extend_from_slice(&record);
    before.set("x".to_string(), "9".to_string(), None, 100);
    // The process dies; a fresh one replays the surviving log.
    let mut after = Store::new(10);
    replay(&mut after, &log, 200);
    assert_eq!(after.get("x", 200), Some("9".to_string()));
}

#[test]
fn restart_recovers_the_store_from_the_snapshot() {
    let mut before = Store::new(10);
    before.set("x".to_string(), "9".to_string(), None, 100);
    let snapshot = save(&mut before);
    let mut after = load(&snapshot, 10).expect("the snapshot loads");
    assert_eq!(after.get("x", 500), Some("9".to_string()));
}
