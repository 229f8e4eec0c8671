use docuum_state::state::{initial, State, Timestamp};

#[test]
fn initial_is_empty() {
    let s = initial();
    assert_eq!(s.len(), 0);
    assert!(s.is_empty());
    assert_eq!(s.get("img:sha256:abc"), None);
}

#[test]
fn timestamp_constructors() {
    let t = Timestamp::new(5, 7);
    assert_eq!(t.secs, 5);
    assert_eq!(t.nanos, 7);
    let u = Timestamp::from_secs(1000);
    assert_eq!(u.secs, 1000);
    assert_eq!(u.nanos, 0);
}

#[test]
fn set_and_get() {
    let mut s = initial();
    s.set(String::from("a"), Timestamp::from_secs(1));
    s.set(String::from("b"), Timestamp::new(2, 500));
    assert_eq!(s.len(), 2);
    assert!(!s.is_empty());
    assert_eq!(s.get("a"), Some(Timestamp::from_secs(1)));
    assert_eq!(s.get("b"), Some(Timestamp::new(2, 500)));
    assert_eq!(s.get("c"), None);
}

#[test]
fn set_replaces_existing_key() {
    let mut s = initial();
    s.set(String::from("a"), Timestamp::from_secs(1));
    s.set(String::from("a"), Timestamp::from_secs(9));
    assert_eq!(s.len(), 1);
    assert_eq!(s.get("a"), Some(Timestamp::from_secs(9)));
}

#[test]
fn from_entries_keeps_order_and_values() {
    let entries = vec![
        (String::from("x"), Timestamp::from_secs(3)),
        (String::from("y"), Timestamp::new(4, 5)),
    ];
    let s = State::from_entries(entries);
    assert_eq!(s.entry_count(), 2);
    let (k0, t0) = s.entry_at(0);
    assert_eq!(k0.as_str(), "x");
    assert_eq!(t0, Timestamp::from_secs(3));
    let (k1, t1) = s.entry_at(1);
    assert_eq!(k1.as_str(), "y");
    assert_eq!(t1, Timestamp::new(4, 5));
}
