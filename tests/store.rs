use kvwire::db::State;

#[test]
fn ttl_value_readable_then_swept() {
    let mut s = State::new();
    s.set("k", b"v".to_vec(), Some(100), 1000);
    assert_eq!(s.get("k"), Some(b"v".to_vec()));
    assert_eq!(s.next_expiration(), Some(1100));
    assert_eq!(s.remove_expired_keys(1099), Some(1100));
    assert_eq!(s.get("k"), Some(b"v".to_vec()));
    assert_eq!(s.remove_expired_keys(1101), None);
    assert_eq!(s.get("k"), None);
}

#[test]
fn sweep_at_deadline_removes() {
    let mut s = State::new();
    s.set("k", b"v".to_vec(), Some(100), 0);
    assert_eq!(s.remove_expired_keys(100), None);
    assert_eq!(s.get("k"), None);
}

#[test]
fn earlier_deadline_wakes_reaper() {
    let mut s = State::new();
    assert!(s.set("a", b"1".to_vec(), Some(500), 0));
    assert!(s.set("b", b"2".to_vec(), Some(50), 0));
    assert_eq!(s.next_expiration(), Some(50));
    assert_eq!(s.remove_expired_keys(60), Some(500));
    assert_eq!(s.get("b"), None);
    assert_eq!(s.get("a"), Some(b"1".to_vec()));
}

#[test]
fn later_deadline_does_not_wake() {
    let mut s = State::new();
    assert!(s.set("a", b"1".to_vec(), Some(50), 0));
    assert!(!s.set("b", b"2".to_vec(), Some(500), 0));
    assert!(!s.set("c", b"3".to_vec(), None, 0));
    assert!(!s.set("d", b"4".to_vec(), Some(50), 0));
}

#[test]
fn no_ttl_persists() {
    let mut s = State::new();
    assert!(!s.set("k", b"v".to_vec(), None, 0));
    assert_eq!(s.remove_expired_keys(u64::MAX), None);
    assert_eq!(s.get("k"), Some(b"v".to_vec()));
}

#[test]
fn overwrite_clears_stale_deadline() {
    let mut s = State::new();
    s.set("k", b"v1".to_vec(), Some(50), 0);
    s.set("k", b"v2".to_vec(), None, 10);
    assert_eq!(s.next_expiration(), None);
    assert_eq!(s.remove_expired_keys(100), None);
    assert_eq!(s.get("k"), Some(b"v2".to_vec()));
}

#[test]
fn overwrite_with_same_deadline_keeps_it() {
    let mut s = State::new();
    s.set("k", b"v1".to_vec(), Some(50), 0);
    s.set("k", b"v2".to_vec(), Some(40), 10);
    assert_eq!(s.next_expiration(), Some(50));
    assert_eq!(s.remove_expired_keys(49), Some(50));
    assert_eq!(s.get("k"), Some(b"v2".to_vec()));
    assert_eq!(s.remove_expired_keys(50), None);
    assert_eq!(s.get("k"), None);
}

#[test]
fn get_missing_is_none() {
    let s = State::new();
    assert_eq!(s.get("nope"), None);
    assert_eq!(s.next_expiration(), None);
}

#[test]
fn sweep_removes_all_due_keys_in_order() {
    let mut s = State::new();
    s.set("c", b"3".to_vec(), Some(30), 0);
    s.set("a", b"1".to_vec(), Some(10), 0);
    s.set("b", b"2".to_vec(), Some(20), 0);
    s.set("z", b"9".to_vec(), None, 0);
    assert_eq!(s.remove_expired_keys(20), Some(30));
    assert_eq!(s.get("a"), None);
    assert_eq!(s.get("b"), None);
    assert_eq!(s.get("c"), Some(b"3".to_vec()));
    assert_eq!(s.get("z"), Some(b"9".to_vec()));
}
