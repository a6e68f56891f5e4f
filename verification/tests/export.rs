use entity_registry::codec::parse_export;
use entity_registry::text::{contains_substring, is_blank};
use entity_registry::Registry;

#[test]
fn export_of_empty_registry_is_empty() {
    let reg = Registry::new();
    assert_eq!(reg.export_all(), "");
}

#[test]
fn export_format_is_exact() {
    let mut reg = Registry::new();
    reg.create("A".to_string(), "b".to_string()).unwrap();
    assert_eq!(reg.export_all(), "1 1:A 1:b\n");
    reg.create("John Doe".to_string(), "john@example.com".to_string()).unwrap();
    assert_eq!(reg.export_all(), "1 1:A 1:b\n2 8:John Doe 16:john@example.com\n");
}

#[test]
fn export_then_parse_restores_the_records() {
    let mut reg = Registry::new();
    reg.create("John Doe".to_string(), "john@example.com".to_string()).unwrap();
    let text = reg.export_all();
    let parsed = parse_export(&text).unwrap();
    assert_eq!(parsed.len(), 1);
    assert_eq!(parsed[0].id, 1);
    assert_eq!(parsed[0].name, "John Doe");
    assert_eq!(parsed[0].email, "john@example.com");
}

#[test]
fn round_trip_survives_delimiters_inside_fields() {
    let mut reg = Registry::new();
    reg.create("a:b \n7 9:x".to_string(), "odd email".to_string()).unwrap();
    reg.create("Grüße 東京".to_string(), "ü@example.com".to_string()).unwrap();
    let text = reg.export_all();
    let parsed = parse_export(&text).unwrap();
    assert_eq!(parsed.len(), 2);
    assert_eq!(parsed[0].name, "a:b \n7 9:x");
    assert_eq!(parsed[0].email, "odd email");
    assert_eq!(parsed[1].id, 2);
    assert_eq!(parsed[1].name, "Grüße 東京");
    assert_eq!(parsed[1].email, "ü@example.com");
}

#[test]
fn parse_of_empty_text_is_an_empty_record_set() {
    let parsed = parse_export("").unwrap();
    assert!(parsed.is_empty());
}

#[test]
fn parse_rejects_malformed_text() {
    assert!(parse_export("abc").is_none());
    assert!(parse_export("1 1:A 1:b").is_none());
    assert!(parse_export("1 1:A 1:b\nx").is_none());
    assert!(parse_export("1 5:A 1:b\n").is_none());
    assert!(parse_export("1:A 1:b\n").is_none());
    assert!(parse_export("1 1:A\n").is_none());
}

#[test]
fn parse_rejects_ids_beyond_u32() {
    assert!(parse_export("4294967296 1:A 1:b\n").is_none());
    assert!(parse_export("4294967295 1:A 1:b\n").is_some());
}

#[test]
fn blank_detection() {
    assert!(is_blank(""));
    assert!(is_blank(" \t\r\n"));
    assert!(is_blank("\u{00A0}\u{2003}"));
    assert!(!is_blank(" x "));
    assert!(!is_blank("config"));
}

#[test]
fn substring_search_edges() {
    assert!(contains_substring("hello", "ell"));
    assert!(contains_substring("hello", ""));
    assert!(contains_substring("", ""));
    assert!(!contains_substring("", "a"));
    assert!(!contains_substring("ab", "abc"));
    assert!(contains_substring("abc", "abc"));
    assert!(!contains_substring("abc", "cb"));
    assert!(contains_substring("Grüße", "üß"));
}
