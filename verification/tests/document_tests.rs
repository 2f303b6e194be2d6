use docstore::document::{Document, ObjectID, ObjectId, Value};

fn id(n: u8) -> ObjectId {
    ObjectId::from_bytes([n; 12])
}

#[test]
fn object_id_keeps_its_bytes() {
    let bytes = [0, 1, 2, 3, 4, 5, 6, 7, 8, 9, 10, 11];
    let id = ObjectId::from_bytes(bytes);
    assert_eq!(id.bytes(), bytes);
}

#[test]
fn object_id_same_compares_all_bytes() {
    let a = ObjectId::from_bytes([7; 12]);
    let mut other = [7u8; 12];
    other[11] = 8;
    let b = ObjectId::from_bytes(other);
    assert!(a.same(&ObjectId::from_bytes([7; 12])));
    assert!(!a.same(&b));
    assert!(!b.same(&a));
}

#[test]
fn identifier_field_is_called_id() {
    assert_eq!(ObjectID, "_id");
}

#[test]
fn new_document_is_empty() {
    let doc = Document::new();
    assert_eq!(doc.len(), 0);
    assert!(doc.get("a").is_none());
    assert!(!doc.contains_key("a"));
}

#[test]
fn insert_appends_new_names_in_order() {
    let mut doc = Document::new();
    assert!(doc.insert("b".to_string(), Value::Int32(2)).is_none());
    assert!(doc.insert("a".to_string(), Value::Int32(1)).is_none());
    assert_eq!(doc.len(), 2);
    assert_eq!(doc.name_at(0), "b");
    assert_eq!(doc.name_at(1), "a");
    assert_eq!(doc.value_at(0), &Value::Int32(2));
    assert_eq!(doc.value_at(1), &Value::Int32(1));
}

#[test]
fn insert_replaces_in_place_and_returns_the_old_value() {
    let mut doc = Document::new();
    doc.insert("a".to_string(), Value::Int32(1));
    doc.insert("b".to_string(), Value::Boolean(true));
    let previous = doc.insert("a".to_string(), Value::Null);
    assert_eq!(previous, Some(Value::Int32(1)));
    assert_eq!(doc.len(), 2);
    assert_eq!(doc.name_at(0), "a");
    assert_eq!(doc.get("a"), Some(&Value::Null));
    assert_eq!(doc.get("b"), Some(&Value::Boolean(true)));
}

#[test]
fn get_finds_only_the_exact_name() {
    let mut doc = Document::new();
    doc.insert("name".to_string(), Value::Text("x".to_string()));
    assert!(doc.get("nam").is_none());
    assert!(doc.get("name ").is_none());
    assert!(doc.get("Name").is_none());
    assert!(doc.contains_key("name"));
}

#[test]
fn as_str_is_the_text_of_a_text_value_only() {
    assert_eq!(Value::Text("hi".to_string()).as_str(), Some("hi"));
    assert_eq!(Value::Int32(1).as_str(), None);
    assert_eq!(Value::Null.as_str(), None);
    assert_eq!(Value::Identifier(id(1)).as_str(), None);
}

#[test]
fn as_object_id_is_the_identifier_of_an_identifier_value_only() {
    assert_eq!(Value::Identifier(id(3)).as_object_id(), Some(id(3)));
    assert_eq!(Value::Text("x".to_string()).as_object_id(), None);
    assert_eq!(Value::Binary(vec![3; 12]).as_object_id(), None);
}

#[test]
fn duplicate_copies_nested_values() {
    let mut inner = Document::new();
    inner.insert("k".to_string(), Value::Array(vec![Value::Int64(9), Value::Null]));
    let mut doc = Document::new();
    doc.insert("inner".to_string(), Value::Embedded(inner));
    doc.insert("bytes".to_string(), Value::Binary(vec![1, 2, 3]));
    doc.insert("id".to_string(), Value::Identifier(id(4)));
    let copy = doc.duplicate();
    assert_eq!(copy, doc);
    assert_eq!(doc.clone(), doc);
    let value = Value::Array(vec![Value::Text("a".to_string()), Value::Boolean(false)]);
    assert_eq!(value.duplicate(), value);
    assert_eq!(value.clone(), value);
}
