use docstore::encoding::{canonical_text, generate};
use docstore::document::{Document, ObjectId, Value};
use docstore::text::{strip_prefix, tokenize};

#[test]
fn tokenize_splits_on_white_space_and_lowers_case() {
    assert_eq!(tokenize("Hello World"), vec!["hello".to_string(), "world".to_string()]);
}

#[test]
fn tokenize_skips_runs_of_white_space_at_both_ends() {
    assert_eq!(
        tokenize("  \tOne\n\nTWO  three \r\n"),
        vec!["one".to_string(), "two".to_string(), "three".to_string()]
    );
}

#[test]
fn tokenize_of_nothing_is_nothing() {
    assert!(tokenize("").is_empty());
    assert!(tokenize(" \t\n").is_empty());
}

#[test]
fn tokenize_knows_unicode_white_space() {
    assert_eq!(
        tokenize("a\u{3000}B\u{a0}c\u{2003}D\u{85}e"),
        vec!["a".to_string(), "b".to_string(), "c".to_string(), "d".to_string(), "e".to_string()]
    );
}

#[test]
fn tokenize_does_not_split_on_other_separators() {
    assert_eq!(tokenize("A,b\u{200b}C"), vec!["a,b\u{200b}c".to_string()]);
}

#[test]
fn tokenize_lowers_letters_outside_ascii() {
    assert_eq!(tokenize("ÄRGER Écoute"), vec!["ärger".to_string(), "écoute".to_string()]);
}

#[test]
fn canonical_text_of_scalars() {
    assert_eq!(canonical_text(&Value::Null), "null");
    assert_eq!(canonical_text(&Value::Boolean(true)), "true");
    assert_eq!(canonical_text(&Value::Boolean(false)), "false");
    assert_eq!(canonical_text(&Value::Int32(-17)), "-17");
    assert_eq!(canonical_text(&Value::Int64(1 << 40)), "1099511627776");
}

#[test]
fn canonical_text_of_a_text_is_quoted() {
    assert_eq!(canonical_text(&Value::Text("Danyalmh".to_string())), "\"Danyalmh\"");
    assert_eq!(canonical_text(&Value::Text(String::new())), "\"\"");
}

#[test]
fn canonical_text_of_an_identifier_shows_its_bytes_in_hex() {
    let id = ObjectId::from_bytes([0x63, 0xce, 0xef, 0xfd, 0x37, 0x51, 0x82, 0x21, 0xcd, 0xc6, 0xcd, 0xa2]);
    assert_eq!(
        canonical_text(&Value::Identifier(id)),
        "ObjectId(\"63ceeffd37518221cdc6cda2\")"
    );
}

#[test]
fn canonical_text_of_an_array_lists_its_items() {
    let value = Value::Array(vec![Value::Int32(1), Value::Text("a".to_string()), Value::Null]);
    assert_eq!(canonical_text(&value), "[1, \"a\", null]");
    assert_eq!(canonical_text(&Value::Array(vec![])), "[]");
}

#[test]
fn canonical_text_of_an_embedded_document_lists_its_fields_in_order() {
    let mut inner = Document::new();
    inner.insert("z".to_string(), Value::Int32(1));
    inner.insert("a".to_string(), Value::Array(vec![Value::Boolean(true)]));
    assert_eq!(canonical_text(&Value::Embedded(inner)), "{ \"z\": 1, \"a\": [true] }");
    assert_eq!(canonical_text(&Value::Embedded(Document::new())), "{}");
}

#[test]
fn canonical_text_of_binary_is_base64() {
    assert_eq!(canonical_text(&Value::Binary(vec![1, 2, 3])), "Binary(0x0, AQID)");
}

#[test]
fn canonical_text_tells_a_number_from_its_text() {
    assert_ne!(canonical_text(&Value::Int32(5)), canonical_text(&Value::Text("5".to_string())));
    assert_eq!(canonical_text(&Value::Int32(5)), canonical_text(&Value::Int64(5)));
}

#[test]
fn generate_hands_out_different_identifiers() {
    let a = generate();
    let b = generate();
    let c = generate();
    assert!(!a.same(&b));
    assert!(!b.same(&c));
    assert!(!a.same(&c));
}

#[test]
fn strip_prefix_gives_what_follows() {
    assert_eq!(strip_prefix("__Tag__red", "__Tag__"), Some("red".to_string()));
    assert_eq!(strip_prefix("__Tag__", "__Tag__"), Some(String::new()));
    assert_eq!(strip_prefix("héllo wörld", "héllo "), Some("wörld".to_string()));
    assert_eq!(strip_prefix("abc", ""), Some("abc".to_string()));
}

#[test]
fn strip_prefix_of_another_beginning_is_nothing() {
    assert_eq!(strip_prefix("__View__red", "__Tag__"), None);
    assert_eq!(strip_prefix("__Ta", "__Tag__"), None);
    assert_eq!(strip_prefix("", "x"), None);
    assert_eq!(strip_prefix("red__Tag__", "__Tag__"), None);
}
