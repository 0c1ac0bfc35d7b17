use transport_postgresql::bytea::{column_bytes, from_hex_literal, hex_literal, is_text};

#[test]
fn bytes_round_trip_through_the_hex_form() {
    let bytes: Vec<u8> = (0..=255).collect();
    let literal = hex_literal(&bytes);
    assert!(literal.starts_with("\\x000102"));
    assert_eq!(from_hex_literal(&literal), Some(bytes.clone()));
    assert_eq!(column_bytes(literal), bytes);
    assert_eq!(hex_literal(b""), "\\x");
    assert_eq!(from_hex_literal("\\x"), Some(Vec::new()));
}

#[test]
fn what_is_not_the_hex_form_is_text() {
    assert_eq!(from_hex_literal("plain"), None);
    assert_eq!(from_hex_literal("\\xabc"), None, "an odd digit count");
    assert_eq!(from_hex_literal("\\xzz"), None, "not hex");
    assert_eq!(column_bytes("plain".to_string()), b"plain");
}

#[test]
fn the_hex_form_is_exact() {
    assert_eq!(hex_literal(&[0x00, 0x9a, 0xff]), "\\x009aff");
    assert_eq!(from_hex_literal("\\x9aFf"), Some(vec![0x9a, 0xff]), "either case");
    assert_eq!(from_hex_literal(""), None);
    assert_eq!(from_hex_literal("\\"), None);
    assert_eq!(from_hex_literal("x00"), None);
    assert_eq!(from_hex_literal("\\X00"), None);
    assert_eq!(from_hex_literal("\\x0g"), None);
    assert_eq!(column_bytes("\\x0g".to_string()), b"\\x0g");
    assert_eq!(column_bytes("\u{e9}".to_string()), [0xc3, 0xa9]);
    assert_eq!(column_bytes("\\x6869".to_string()), b"hi", "the ambiguity is PostgreSQL's");
}

#[test]
fn text_is_utf8_without_a_nul() {
    assert!(is_text(b""));
    assert!(is_text("\u{1f418} it's".as_bytes()));
    assert!(!is_text(b"a\0b"));
    assert!(!is_text(&[0xff, 0xfe]));
    assert!(!is_text(&[0xed, 0xa0, 0x80]), "a surrogate");
}
