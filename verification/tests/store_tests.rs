use docstore::datastore::config::{Config, StorageType};
use docstore::datastore::datastore::DataStore;
use docstore::datastore::error::Error;
use docstore::datastore::indexer::{IndexType, SyncIndexer};
use docstore::document::{Document, ObjectId, Value};
use docstore::index::contains_id;
use docstore::index::error::IndexError;

type Filter = fn(&Document) -> bool;

fn id(n: u8) -> ObjectId {
    ObjectId::from_bytes([n; 12])
}

fn text(s: &str) -> Value {
    Value::Text(s.to_string())
}

fn person(name: &str, email: &str, age: i32) -> Document {
    let mut doc = Document::new();
    doc.insert("name".to_string(), text(name));
    doc.insert("email".to_string(), text(email));
    doc.insert("age".to_string(), Value::Int32(age));
    doc
}

fn with_id(mut doc: Document, id: ObjectId) -> Document {
    doc.insert("_id".to_string(), Value::Identifier(id));
    doc
}

fn adult(doc: &Document) -> bool {
    matches!(doc.get("age"), Some(Value::Int32(age)) if *age >= 18)
}

fn has_identifier(doc: &Document) -> bool {
    doc.contains_key("_id")
}

fn store() -> DataStore<Filter> {
    let mut registry = SyncIndexer::<Filter>::new();
    registry.define_index("email", IndexType::Unique).unwrap();
    registry.define_index("nick", IndexType::Unique).unwrap();
    registry.define_index("person", IndexType::Tag).unwrap();
    registry.define_index("age", IndexType::Range).unwrap();
    registry.define_index("name", IndexType::Inverted).unwrap();
    registry.define_view("adults", adult);
    DataStore::new().with_indexer(registry)
}

fn sorted(mut ids: Vec<ObjectId>) -> Vec<[u8; 12]> {
    let mut bytes: Vec<[u8; 12]> = ids.drain(..).map(|id| id.bytes()).collect();
    bytes.sort();
    bytes
}

#[test]
fn new_store_holds_nothing() {
    let store = DataStore::<Filter>::new();
    assert!(store.iter().is_empty());
    assert!(store.find(&id(1)).is_none());
    assert!(store.hash_index().iter().is_empty());
    assert!(store.tag_index().iter().is_empty());
    assert!(store.tag_index().iter_views().is_empty());
    assert!(store.indexer().hash_fields().is_empty());
    assert_eq!(store.cfg().storage_type(), StorageType::RamCopies);
}

#[test]
fn with_config_keeps_the_configuration() {
    let store = DataStore::<Filter>::new().with_config(Config::new().with_name("people").with_type(StorageType::DiskCopies));
    assert_eq!(store.cfg().name(), "people");
    assert_eq!(store.cfg().storage_type(), StorageType::DiskCopies);
}

#[test]
fn round_trip_appends_the_assigned_identifier() {
    let mut store = store();
    let doc = person("Ada Lovelace", "ada@example.org", 36);
    assert_eq!(store.insert(doc.clone()), Ok(None));
    let entries = store.iter();
    assert_eq!(entries.len(), 1);
    let assigned = entries[0].0;
    let found = store.find(&assigned).unwrap();
    assert_eq!(found, with_id(doc.clone(), assigned));
    assert_eq!(found.len(), 4);
    assert_eq!(found.name_at(3), "_id");
    assert_eq!(found.value_at(3), &Value::Identifier(assigned));
    assert_eq!(entries[0].1, found);
}

#[test]
fn a_carried_identifier_is_taken_as_it_is() {
    let mut store = store();
    let doc = with_id(person("Ada", "ada@example.org", 36), id(9));
    assert_eq!(store.insert(doc.clone()), Ok(None));
    assert_eq!(store.find(&id(9)), Some(doc));
    assert_eq!(store.iter().len(), 1);
}

#[test]
fn an_identifier_field_of_another_type_is_refused() {
    let mut store = store();
    let mut doc = person("Ada", "ada@example.org", 36);
    doc.insert("_id".to_string(), text("63ceeffd37518221cdc6cda2"));
    assert_eq!(store.insert(doc), Err(Error::InvalidObjectId));
    let mut doc = person("Bob", "bob@example.org", 20);
    doc.insert("_id".to_string(), Value::Binary(vec![1; 12]));
    assert_eq!(store.insert(doc), Err(Error::InvalidObjectId));
    assert!(store.iter().is_empty());
    assert!(store.hash_index().iter().is_empty());
    assert!(store.tag_index().iter().is_empty());
    assert!(store.inverted_index().search(&"ada bob".to_string()).is_empty());
}

#[test]
fn insert_over_an_identifier_returns_the_document_it_had() {
    let mut store = store();
    let first = with_id(person("Ada", "ada@example.org", 36), id(1));
    let second = with_id(person("Ada King", "ada@example.org", 37), id(1));
    assert_eq!(store.insert(first.clone()), Ok(None));
    assert_eq!(store.insert(second.clone()), Ok(Some(first)));
    assert_eq!(store.find(&id(1)), Some(second));
    assert_eq!(store.iter().len(), 1);
}

#[test]
fn insert_files_the_document_in_every_index() {
    let mut store = store();
    let doc = with_id(person("Ada Lovelace", "ada@example.org", 36), id(1));
    store.insert(doc).unwrap();
    assert_eq!(store.hash_index().lookup(&"\"ada@example.org\"".to_string()), Some(id(1)));
    assert_eq!(store.tag_index().lookup("person"), Some(vec![id(1)]));
    assert_eq!(store.range_index().range("age", "36".to_string(), "37".to_string()), vec![id(1)]);
    assert_eq!(store.inverted_index().search(&"lovelace".to_string()), vec![id(1)]);
    assert_eq!(store.inverted_index().search(&"ADA".to_string()), vec![id(1)]);
    assert_eq!(store.tag_index().lookup_view("adults"), Some(vec![id(1)]));
}

#[test]
fn a_tag_field_files_every_document_under_its_own_name() {
    let mut store = store();
    let mut tagged = Document::new();
    tagged.insert("person".to_string(), text("yes"));
    let untagged = Document::new();
    store.insert(with_id(tagged, id(1))).unwrap();
    store.insert(with_id(untagged, id(2))).unwrap();
    assert_eq!(sorted(store.tag_index().lookup("person").unwrap()), sorted(vec![id(1), id(2)]));
    assert!(store.tag_index().lookup("yes").is_none());
    assert!(store.tag_index().lookup("\"yes\"").is_none());
}

#[test]
fn a_tag_field_never_lands_in_a_view() {
    let mut store = DataStore::<Filter>::new();
    store.define_index("__View__adults", IndexType::Tag).unwrap();
    store.define_view("adults", adult);
    store.insert(with_id(person("Kid", "kid@example.org", 7), id(1))).unwrap();
    store.insert(with_id(person("Ada", "ada@example.org", 36), id(2))).unwrap();
    assert_eq!(store.tag_index().lookup_view("adults"), Some(vec![id(2)]));
    assert_eq!(
        sorted(store.tag_index().lookup("__View__adults").unwrap()),
        sorted(vec![id(1), id(2)])
    );
    store.remove(&id(2));
    assert_eq!(store.tag_index().lookup_view("adults"), Some(vec![id(2)]));
    assert_eq!(store.tag_index().lookup("__View__adults"), Some(vec![id(1)]));
}

#[test]
fn the_full_text_index_takes_texts_only() {
    let mut store = store();
    let mut doc = Document::new();
    doc.insert("name".to_string(), Value::Int32(42));
    store.insert(with_id(doc, id(1))).unwrap();
    assert!(store.inverted_index().search(&"42".to_string()).is_empty());
    let mut doc = Document::new();
    doc.insert("name".to_string(), Value::Array(vec![text("hidden")]));
    store.insert(with_id(doc, id(2))).unwrap();
    assert!(store.inverted_index().search(&"hidden".to_string()).is_empty());
}

#[test]
fn a_view_holds_the_documents_that_its_predicate_accepts() {
    let mut store = store();
    store.insert(with_id(person("Ada", "ada@example.org", 36), id(1))).unwrap();
    store.insert(with_id(person("Kid", "kid@example.org", 7), id(2))).unwrap();
    assert_eq!(store.tag_index().lookup_view("adults"), Some(vec![id(1)]));
    assert!(store.tag_index().lookup("adults").is_none());
}

#[test]
fn a_view_sees_the_document_with_its_identifier() {
    let mut store = DataStore::<Filter>::new();
    store.define_view("identified", has_identifier);
    store.insert(Document::new()).unwrap();
    let assigned = store.iter()[0].0;
    assert_eq!(store.tag_index().lookup_view("identified"), Some(vec![assigned]));
}

#[test]
fn second_insert_of_a_unique_value_fails_with_duplicate() {
    let mut store = store();
    store.insert(with_id(person("Ada", "ada@example.org", 36), id(1))).unwrap();
    let second = with_id(person("Eve", "ada@example.org", 30), id(2));
    assert_eq!(store.insert(second), Err(Error::IndexError(IndexError::Duplicate)));
    assert!(store.find(&id(2)).is_none());
    assert_eq!(store.iter().len(), 1);
    assert_eq!(store.hash_index().lookup(&"\"ada@example.org\"".to_string()), Some(id(1)));
    assert_eq!(store.tag_index().lookup("person"), Some(vec![id(1)]));
    assert_eq!(store.tag_index().lookup_view("adults"), Some(vec![id(1)]));
    assert!(store.range_index().range("age", "30".to_string(), "31".to_string()).is_empty());
    assert!(store.inverted_index().search(&"eve".to_string()).is_empty());
}

#[test]
fn a_failed_insert_gives_up_the_claims_it_made() {
    let mut store = store();
    let mut first = person("Ada", "ada@example.org", 36);
    first.insert("nick".to_string(), text("countess"));
    store.insert(with_id(first, id(1))).unwrap();
    let mut second = person("Eve", "eve@example.org", 30);
    second.insert("nick".to_string(), text("countess"));
    assert_eq!(store.insert(with_id(second, id(2))), Err(Error::IndexError(IndexError::Duplicate)));
    assert_eq!(store.hash_index().lookup(&"\"eve@example.org\"".to_string()), None);
    assert_eq!(store.hash_index().lookup(&"\"countess\"".to_string()), Some(id(1)));
    assert_eq!(store.hash_index().lookup(&"\"ada@example.org\"".to_string()), Some(id(1)));
    assert_eq!(store.hash_index().iter().len(), 2);
    for (_, owner) in store.hash_index().iter() {
        assert_eq!(owner, id(1));
    }
    for (_, ids) in store.tag_index().iter() {
        assert!(!contains_id(&ids, &id(2)));
    }
    for (_, ids) in store.tag_index().iter_views() {
        assert!(!contains_id(&ids, &id(2)));
    }
    let mut third = person("Eve", "eve@example.org", 30);
    third.insert("nick".to_string(), text("eve"));
    assert_eq!(store.insert(with_id(third, id(2))), Ok(None));
}

#[test]
fn a_failed_insert_leaves_the_claim_it_ran_into() {
    let mut store = store();
    store.insert(with_id(person("Ada", "ada@example.org", 36), id(1))).unwrap();
    for _ in 0..3 {
        let second = with_id(person("Eve", "ada@example.org", 30), id(2));
        assert_eq!(store.insert(second), Err(Error::IndexError(IndexError::Duplicate)));
        assert_eq!(store.hash_index().lookup(&"\"ada@example.org\"".to_string()), Some(id(1)));
    }
}

#[test]
fn a_failed_insert_keeps_the_claims_the_identifier_had() {
    let mut store = store();
    let mut mine = person("Ada", "ada@example.org", 36);
    mine.insert("nick".to_string(), text("ada"));
    store.insert(with_id(mine, id(1))).unwrap();
    let mut other = person("Eve", "eve@example.org", 30);
    other.insert("nick".to_string(), text("eve"));
    store.insert(with_id(other, id(2))).unwrap();
    let mut again = person("Ada", "ada@example.org", 37);
    again.insert("nick".to_string(), text("eve"));
    assert_eq!(store.insert(with_id(again, id(1))), Err(Error::IndexError(IndexError::Duplicate)));
    assert_eq!(store.hash_index().lookup(&"\"ada@example.org\"".to_string()), Some(id(1)));
    assert_eq!(store.hash_index().lookup(&"\"ada\"".to_string()), Some(id(1)));
    assert_eq!(store.hash_index().lookup(&"\"eve\"".to_string()), Some(id(2)));
    assert_eq!(store.hash_index().iter().len(), 4);
}

#[test]
fn unique_values_are_told_apart_by_type() {
    let mut store = store();
    let mut a = Document::new();
    a.insert("email".to_string(), Value::Int32(5));
    let mut b = Document::new();
    b.insert("email".to_string(), text("5"));
    let mut c = Document::new();
    c.insert("email".to_string(), Value::Int64(5));
    assert_eq!(store.insert(with_id(a, id(1))), Ok(None));
    assert_eq!(store.insert(with_id(b, id(2))), Ok(None));
    assert_eq!(store.insert(with_id(c, id(3))), Err(Error::IndexError(IndexError::Duplicate)));
}

#[test]
fn documents_with_distinct_unique_values_all_go_in() {
    let mut store = store();
    for n in 0..100u8 {
        let doc = person("Some Body", &format!("user{n}@example.org"), 20);
        assert_eq!(store.insert(with_id(doc, id(n))), Ok(None));
    }
    assert_eq!(store.hash_index().iter().len(), 100);
    assert_eq!(store.iter().len(), 100);
    for n in 0..100u8 {
        assert_eq!(store.hash_index().lookup(&format!("\"user{n}@example.org\"")), Some(id(n)));
    }
}

#[test]
fn generated_identifiers_do_not_collide() {
    let mut store = DataStore::<Filter>::new();
    for _ in 0..50 {
        assert_eq!(store.insert(Document::new()), Ok(None));
    }
    assert_eq!(store.iter().len(), 50);
}

#[test]
fn remove_withdraws_the_document_from_table_and_indices() {
    let mut store = store();
    store.insert(with_id(person("Ada Lovelace", "ada@example.org", 36), id(1))).unwrap();
    store.insert(with_id(person("Eve Lovelace", "eve@example.org", 36), id(2))).unwrap();
    store.remove(&id(1));
    assert!(store.find(&id(1)).is_none());
    assert_eq!(store.iter().len(), 1);
    assert_eq!(store.hash_index().lookup(&"\"ada@example.org\"".to_string()), None);
    assert_eq!(store.hash_index().lookup(&"\"eve@example.org\"".to_string()), Some(id(2)));
    assert_eq!(store.tag_index().lookup("person"), Some(vec![id(2)]));
    assert_eq!(store.range_index().range("age", "36".to_string(), "37".to_string()), vec![id(2)]);
    assert_eq!(store.inverted_index().search(&"lovelace".to_string()), vec![id(2)]);
    assert!(store.inverted_index().search(&"ada".to_string()).is_empty());
}

#[test]
fn remove_leaves_the_views_as_they_were() {
    let mut store = store();
    store.insert(with_id(person("Ada", "ada@example.org", 36), id(1))).unwrap();
    store.remove(&id(1));
    assert_eq!(store.tag_index().lookup_view("adults"), Some(vec![id(1)]));
}

#[test]
fn remove_of_an_absent_identifier_changes_nothing() {
    let mut store = store();
    store.insert(with_id(person("Ada", "ada@example.org", 36), id(1))).unwrap();
    store.remove(&id(2));
    assert_eq!(store.iter().len(), 1);
    assert_eq!(store.hash_index().iter().len(), 1);
    assert_eq!(store.tag_index().lookup("person"), Some(vec![id(1)]));
}

#[test]
fn a_removed_unique_value_can_be_claimed_again() {
    let mut store = store();
    store.insert(with_id(person("Ada", "ada@example.org", 36), id(1))).unwrap();
    store.remove(&id(1));
    assert_eq!(store.insert(with_id(person("Eve", "ada@example.org", 30), id(2))), Ok(None));
    assert_eq!(store.hash_index().lookup(&"\"ada@example.org\"".to_string()), Some(id(2)));
}

#[test]
fn insert_resolved_files_the_views_by_position() {
    let mut store = DataStore::<Filter>::new();
    store.define_view("first", adult);
    store.define_view("second", adult);
    store.define_view("third", adult);
    let doc = with_id(Document::new(), id(1));
    assert_eq!(store.insert_resolved(doc, id(1), vec![false, true]), Ok(None));
    assert!(store.tag_index().lookup_view("first").is_none());
    assert_eq!(store.tag_index().lookup_view("second"), Some(vec![id(1)]));
    assert!(store.tag_index().lookup_view("third").is_none());
}

#[test]
fn schema_changes_go_through_the_store() {
    let mut store = DataStore::<Filter>::new();
    assert_eq!(store.define_index("email", IndexType::Unique), Ok(()));
    assert_eq!(store.define_index("email", IndexType::Tag), Err(IndexError::Duplicate));
    assert_eq!(store.indexer().find(&"email".to_string()), Some(IndexType::Unique));
    store.insert(with_id(person("Ada", "ada@example.org", 36), id(1))).unwrap();
    store.remove_index(&"email".to_string(), IndexType::Unique);
    assert_eq!(store.indexer().find(&"email".to_string()), None);
    assert_eq!(store.insert(with_id(person("Eve", "ada@example.org", 30), id(2))), Ok(None));
    assert_eq!(store.hash_index().lookup(&"\"ada@example.org\"".to_string()), Some(id(1)));
}

#[test]
fn range_scan_over_the_store_follows_the_canonical_text() {
    let mut store = store();
    store.insert(with_id(person("A", "a@example.org", 1), id(1))).unwrap();
    store.insert(with_id(person("B", "b@example.org", 5), id(2))).unwrap();
    store.insert(with_id(person("C", "c@example.org", 9), id(3))).unwrap();
    let found = store.range_index().range("age", "1".to_string(), "9".to_string());
    assert_eq!(sorted(found), sorted(vec![id(1), id(2)]));
}
