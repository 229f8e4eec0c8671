use docuum_state::codec::{parse_text, to_text};
use docuum_state::state::{initial, Timestamp};

#[test]
fn empty_state_text() {
    let s = initial();
    assert_eq!(to_text(&s), "images: {}\n");
}

#[test]
fn empty_state_round_trip() {
    let s = initial();
    let text = to_text(&s);
    let back = parse_text(&text).unwrap();
    assert_eq!(back.len(), 0);
    assert!(back.is_empty());
}

#[test]
fn scenario_initial_save_then_one_image() {
    // Start empty, save, reload: the mapping is empty.
    let mut s = initial();
    let text = to_text(&s);
    assert_eq!(text, "images: {}\n");
    let back = parse_text(&text).unwrap();
    assert_eq!(back.len(), 0);
    // Record one use, save, reload: the mapping holds exactly that entry.
    s.set(String::from("img:sha256:abc"), Timestamp::from_secs(1000));
    let text2 = to_text(&s);
    assert_eq!(
        text2,
        "images:\n  \"img:sha256:abc\":\n    secs: 1000\n    nanos: 0\n"
    );
    let back2 = parse_text(&text2).unwrap();
    assert_eq!(back2.len(), 1);
    assert_eq!(back2.get("img:sha256:abc"), Some(Timestamp::from_secs(1000)));
}

#[test]
fn round_trip_many_entries() {
    let mut s = initial();
    s.set(String::from("img:sha256:abc"), Timestamp::new(1000, 0));
    s.set(String::from("other"), Timestamp::new(7, 999_999_999));
    s.set(String::from("zero"), Timestamp::new(0, 0));
    s.set(String::from("max"), Timestamp::new(u64::MAX, 999_999_999));
    let text = to_text(&s);
    let back = parse_text(&text).unwrap();
    assert_eq!(back.len(), 4);
    assert_eq!(back.get("img:sha256:abc"), Some(Timestamp::new(1000, 0)));
    assert_eq!(back.get("other"), Some(Timestamp::new(7, 999_999_999)));
    assert_eq!(back.get("zero"), Some(Timestamp::new(0, 0)));
    assert_eq!(back.get("max"), Some(Timestamp::new(u64::MAX, 999_999_999)));
}

#[test]
fn round_trip_keys_needing_escapes() {
    let mut s = initial();
    s.set(String::from("quote\"inside"), Timestamp::from_secs(1));
    s.set(String::from("back\\slash"), Timestamp::from_secs(2));
    s.set(String::from(""), Timestamp::from_secs(3));
    s.set(String::from("sp ace:colon"), Timestamp::from_secs(4));
    let text = to_text(&s);
    let back = parse_text(&text).unwrap();
    assert_eq!(back.len(), 4);
    assert_eq!(back.get("quote\"inside"), Some(Timestamp::from_secs(1)));
    assert_eq!(back.get("back\\slash"), Some(Timestamp::from_secs(2)));
    assert_eq!(back.get(""), Some(Timestamp::from_secs(3)));
    assert_eq!(back.get("sp ace:colon"), Some(Timestamp::from_secs(4)));
}

#[test]
fn escaped_key_exact_text() {
    let mut s = initial();
    s.set(String::from("a\"b\\c"), Timestamp::from_secs(1));
    assert_eq!(
        to_text(&s),
        "images:\n  \"a\\\"b\\\\c\":\n    secs: 1\n    nanos: 0\n"
    );
}

#[test]
fn max_values_exact_text() {
    let mut s = initial();
    s.set(String::from("k"), Timestamp::new(18446744073709551615, 999999999));
    assert_eq!(
        to_text(&s),
        "images:\n  \"k\":\n    secs: 18446744073709551615\n    nanos: 999999999\n"
    );
}

#[test]
fn save_is_deterministic() {
    // Writing the same state twice produces identical content, and each
    // load of that content reconstructs the same mapping.
    let mut s = initial();
    s.set(String::from("a"), Timestamp::new(5, 6));
    let first = to_text(&s);
    let second = to_text(&s);
    assert_eq!(first, second);
    let load1 = parse_text(&first).unwrap();
    let load2 = parse_text(&second).unwrap();
    let load3 = parse_text(&second).unwrap();
    assert_eq!(load1.get("a"), Some(Timestamp::new(5, 6)));
    assert_eq!(load2.get("a"), Some(Timestamp::new(5, 6)));
    assert_eq!(load3.get("a"), Some(Timestamp::new(5, 6)));
}

#[test]
fn unknown_top_level_field_is_rejected() {
    assert!(parse_text("images: {}\nextra: 1\n").is_err());
    assert!(
        parse_text("images:\n  \"k\":\n    secs: 1\n    nanos: 0\nother: 3\n").is_err()
    );
}

#[test]
fn missing_or_wrong_header_is_rejected() {
    assert!(parse_text("").is_err());
    assert!(parse_text("imgs: {}\n").is_err());
    assert!(parse_text("images {}\n").is_err());
    assert!(parse_text("images:\n").is_err());
    assert!(parse_text("images: {}").is_err());
    assert!(parse_text("images: {} \n").is_err());
}

#[test]
fn malformed_entries_are_rejected() {
    // Unquoted key.
    assert!(parse_text("images:\n  k:\n    secs: 1\n    nanos: 0\n").is_err());
    // Unterminated key.
    assert!(parse_text("images:\n  \"k\n").is_err());
    // Unknown escape in a key.
    assert!(parse_text("images:\n  \"a\\nb\":\n    secs: 1\n    nanos: 0\n").is_err());
    // Missing fields.
    assert!(parse_text("images:\n  \"k\":\n    secs: 1\n").is_err());
    assert!(parse_text("images:\n  \"k\":\n    nanos: 0\n").is_err());
    // Reordered fields.
    assert!(parse_text("images:\n  \"k\":\n    nanos: 0\n    secs: 1\n").is_err());
    // Unknown field inside an entry.
    assert!(
        parse_text("images:\n  \"k\":\n    secs: 1\n    nanos: 0\n    extra: 2\n").is_err()
    );
}

#[test]
fn malformed_numbers_are_rejected() {
    // Not a digit.
    assert!(parse_text("images:\n  \"k\":\n    secs: x\n    nanos: 0\n").is_err());
    // Leading zero.
    assert!(parse_text("images:\n  \"k\":\n    secs: 01\n    nanos: 0\n").is_err());
    // Too large for u64.
    assert!(
        parse_text("images:\n  \"k\":\n    secs: 18446744073709551616\n    nanos: 0\n").is_err()
    );
    // A nanosecond part must stay under one second.
    assert!(
        parse_text("images:\n  \"k\":\n    secs: 1\n    nanos: 1000000000\n").is_err()
    );
    // Negative numbers have no place in the schema.
    assert!(parse_text("images:\n  \"k\":\n    secs: -1\n    nanos: 0\n").is_err());
}

#[test]
fn duplicate_keys_are_rejected() {
    let text = "images:\n  \"k\":\n    secs: 1\n    nanos: 0\n  \"k\":\n    secs: 2\n    nanos: 0\n";
    assert!(parse_text(text).is_err());
}

#[test]
fn boundary_nanos_accepted() {
    let text = "images:\n  \"k\":\n    secs: 0\n    nanos: 999999999\n";
    let s = parse_text(text).unwrap();
    assert_eq!(s.get("k"), Some(Timestamp::new(0, 999_999_999)));
}
