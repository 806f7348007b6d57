use product::jsonio::{lossy_utf8, parse_angle_text};

#[test]
fn angle_text_parses_to_entries() {
    let mut entries = parse_angle_text("{\"[1, 2]\": [[10, 20], [30, 40]], \"[3]\": []}").unwrap();
    entries.sort_by(|a, b| a.0.cmp(&b.0));
    assert_eq!(entries.len(), 2);
    assert_eq!(entries[0].0, "[1, 2]");
    assert_eq!(entries[0].1, vec![(10, 20), (30, 40)]);
    assert_eq!(entries[1].0, "[3]");
    assert_eq!(entries[1].1, Vec::<(u32, u32)>::new());
}

#[test]
fn malformed_angle_text_is_rejected() {
    assert!(parse_angle_text("{").is_err());
    assert!(parse_angle_text("{\"k\": [[1]]}").is_err());
    assert!(parse_angle_text("[1, 2]").is_err());
}

#[test]
fn lossy_text_keeps_plain_bytes_and_replaces_broken_ones() {
    let b: Vec<u8> = "hello".as_bytes().to_vec();
    assert_eq!(lossy_utf8(&b), "hello");
    let b: Vec<u8> = vec![0x61, 0xFF, 0x62];
    assert_eq!(lossy_utf8(&b), "a\u{FFFD}b");
}
