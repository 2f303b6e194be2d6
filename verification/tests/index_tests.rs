use docstore::document::ObjectId;
use docstore::index::error::IndexError;
use docstore::index::hash::HashIndex;
use docstore::index::inverted_index::InvertedIndex;
use docstore::index::range::{RangeIndex, ValueTree};
use docstore::index::tags::TagIndex;
use docstore::index::contains_id;

fn id(n: u8) -> ObjectId {
    ObjectId::from_bytes([n; 12])
}

fn sorted(mut ids: Vec<ObjectId>) -> Vec<[u8; 12]> {
    let mut bytes: Vec<[u8; 12]> = ids.drain(..).map(|id| id.bytes()).collect();
    bytes.sort();
    bytes
}

fn bytes_of(ids: &[ObjectId]) -> Vec<[u8; 12]> {
    sorted(ids.to_vec())
}

#[test]
fn hash_index_finds_what_was_inserted() {
    let mut index = HashIndex::new();
    assert_eq!(index.insert("a".to_string(), id(1)), Ok(()));
    assert_eq!(index.insert("b".to_string(), id(2)), Ok(()));
    assert_eq!(index.lookup(&"a".to_string()), Some(id(1)));
    assert_eq!(index.lookup(&"b".to_string()), Some(id(2)));
    assert_eq!(index.lookup(&"c".to_string()), None);
}

#[test]
fn hash_index_refuses_a_value_of_another_identifier() {
    let mut index = HashIndex::new();
    index.insert("a".to_string(), id(1)).unwrap();
    assert_eq!(index.insert("a".to_string(), id(2)), Err(IndexError::Duplicate));
    assert_eq!(index.lookup(&"a".to_string()), Some(id(1)));
    assert_eq!(index.iter().len(), 1);
}

#[test]
fn hash_index_accepts_the_same_claim_again() {
    let mut index = HashIndex::new();
    index.insert("a".to_string(), id(1)).unwrap();
    assert_eq!(index.insert("a".to_string(), id(1)), Ok(()));
    assert_eq!(index.lookup(&"a".to_string()), Some(id(1)));
    assert_eq!(index.iter().len(), 1);
}

#[test]
fn hash_index_remove_frees_the_value() {
    let mut index = HashIndex::new();
    index.insert("a".to_string(), id(1)).unwrap();
    index.remove(&"a".to_string());
    index.remove(&"never".to_string());
    assert_eq!(index.lookup(&"a".to_string()), None);
    assert_eq!(index.insert("a".to_string(), id(2)), Ok(()));
    assert_eq!(index.lookup(&"a".to_string()), Some(id(2)));
}

#[test]
fn hash_index_iter_lists_every_claim_once() {
    let mut index = HashIndex::new();
    for n in 0..20u8 {
        index.insert(format!("value-{n}"), id(n)).unwrap();
    }
    let mut entries = index.iter();
    entries.sort_by(|a, b| a.1.bytes().cmp(&b.1.bytes()));
    assert_eq!(entries.len(), 20);
    for n in 0..20u8 {
        assert_eq!(entries[n as usize], (format!("value-{n}"), id(n)));
    }
}

#[test]
fn distinct_values_all_succeed_and_none_is_lost() {
    let mut index = HashIndex::new();
    for n in 0..200u8 {
        assert_eq!(index.insert(format!("{n}"), id(n)), Ok(()));
    }
    assert_eq!(index.iter().len(), 200);
    for n in 0..200u8 {
        assert_eq!(index.lookup(&format!("{n}")), Some(id(n)));
    }
}

#[test]
fn tag_insert_twice_leaves_the_size_unchanged() {
    let mut index = TagIndex::new();
    index.insert("red".to_string(), id(1));
    let once = index.lookup("red").unwrap();
    index.insert("red".to_string(), id(1));
    let twice = index.lookup("red").unwrap();
    assert_eq!(once.len(), 1);
    assert_eq!(twice.len(), 1);
    assert_eq!(twice[0], id(1));
}

#[test]
fn tag_holds_many_identifiers_and_an_identifier_many_tags() {
    let mut index = TagIndex::new();
    index.insert("red".to_string(), id(1));
    index.insert("red".to_string(), id(2));
    index.insert("blue".to_string(), id(1));
    assert_eq!(sorted(index.lookup("red").unwrap()), bytes_of(&[id(1), id(2)]));
    assert_eq!(sorted(index.lookup("blue").unwrap()), bytes_of(&[id(1)]));
    assert!(index.lookup("green").is_none());
}

#[test]
fn tag_remove_withdraws_one_identifier_and_keeps_the_bucket() {
    let mut index = TagIndex::new();
    index.insert("red".to_string(), id(1));
    index.insert("red".to_string(), id(2));
    index.remove(&"red".to_string(), &id(1));
    index.remove(&"red".to_string(), &id(1));
    index.remove(&"absent".to_string(), &id(1));
    assert_eq!(sorted(index.lookup("red").unwrap()), bytes_of(&[id(2)]));
    index.remove(&"red".to_string(), &id(2));
    assert_eq!(index.lookup("red"), Some(vec![]));
    assert!(index.lookup("absent").is_none());
}

#[test]
fn tag_remove_tag_deletes_the_bucket() {
    let mut index = TagIndex::new();
    index.insert("red".to_string(), id(1));
    index.insert("blue".to_string(), id(1));
    index.remove_tag("red");
    index.remove_tag("absent");
    assert!(index.lookup("red").is_none());
    assert_eq!(index.lookup("blue"), Some(vec![id(1)]));
}

#[test]
fn views_and_tags_of_the_same_name_do_not_meet() {
    let mut index = TagIndex::new();
    index.insert("adults".to_string(), id(1));
    index.insert_view("adults", id(2));
    assert_eq!(index.lookup("adults"), Some(vec![id(1)]));
    assert_eq!(index.lookup_view("adults"), Some(vec![id(2)]));
    index.remove_from_view("adults", &id(1));
    assert_eq!(index.lookup_view("adults"), Some(vec![id(2)]));
    index.remove_from_view("adults", &id(2));
    assert_eq!(index.lookup_view("adults"), Some(vec![]));
    index.remove_view("adults");
    assert!(index.lookup_view("adults").is_none());
    assert_eq!(index.lookup("adults"), Some(vec![id(1)]));
}

#[test]
fn view_insert_twice_is_one_membership() {
    let mut index = TagIndex::new();
    index.insert_view("v", id(1));
    index.insert_view("v", id(1));
    assert_eq!(index.lookup_view("v"), Some(vec![id(1)]));
}

#[test]
fn a_tag_that_reads_like_a_view_key_stays_a_tag() {
    let mut index = TagIndex::new();
    let a = id(1);
    index.insert("__View__x".to_string(), a);
    assert!(index.lookup_view("x").is_none());
    assert!(contains_id(&index.lookup("__View__x").unwrap(), &a));
    index.insert_view("x", id(2));
    assert_eq!(index.lookup("__View__x"), Some(vec![a]));
    assert_eq!(index.lookup_view("x"), Some(vec![id(2)]));
    index.remove(&"__View__x".to_string(), &id(2));
    index.remove_tag("__View__x");
    assert_eq!(index.lookup_view("x"), Some(vec![id(2)]));
    assert!(index.lookup("__View__x").is_none());
}

#[test]
fn a_view_that_reads_like_a_tag_key_stays_a_view() {
    let mut index = TagIndex::new();
    index.insert_view("__Tag__y", id(1));
    assert!(index.lookup("y").is_none());
    assert!(index.lookup("__Tag__y").is_none());
    assert_eq!(index.lookup_view("__Tag__y"), Some(vec![id(1)]));
    index.insert("y".to_string(), id(2));
    index.remove_from_view("__Tag__y", &id(2));
    index.remove_view("y");
    assert_eq!(index.lookup("y"), Some(vec![id(2)]));
    index.remove_view("__Tag__y");
    assert!(index.lookup_view("__Tag__y").is_none());
    assert_eq!(index.lookup("y"), Some(vec![id(2)]));
}

#[test]
fn tag_iter_lists_every_tag_once_and_no_view() {
    let mut index = TagIndex::new();
    index.insert("red".to_string(), id(1));
    index.insert("red".to_string(), id(2));
    index.insert("".to_string(), id(4));
    index.insert("__View__w".to_string(), id(5));
    index.insert_view("v", id(3));
    let mut entries = index.iter();
    entries.sort_by(|a, b| a.0.cmp(&b.0));
    assert_eq!(entries.len(), 3);
    assert_eq!(entries[0], (String::new(), vec![id(4)]));
    assert_eq!(entries[1], ("__View__w".to_string(), vec![id(5)]));
    assert_eq!(entries[2].0, "red");
    assert_eq!(sorted(entries[2].1.clone()), bytes_of(&[id(1), id(2)]));
}

#[test]
fn view_iter_lists_every_view_once_and_no_tag() {
    let mut index = TagIndex::new();
    index.insert("red".to_string(), id(1));
    index.insert_view("v", id(3));
    index.insert_view("w", id(3));
    index.insert_view("w", id(4));
    let mut entries = index.iter_views();
    entries.sort_by(|a, b| a.0.cmp(&b.0));
    assert_eq!(entries.len(), 2);
    assert_eq!(entries[0], ("v".to_string(), vec![id(3)]));
    assert_eq!(entries[1].0, "w");
    assert_eq!(sorted(entries[1].1.clone()), bytes_of(&[id(3), id(4)]));
}

#[test]
fn range_is_lower_inclusive_and_upper_exclusive() {
    let mut index = RangeIndex::new();
    let (a, b, c) = (id(1), id(2), id(3));
    index.insert("f".to_string(), "1".to_string(), a);
    index.insert("f".to_string(), "5".to_string(), b);
    index.insert("f".to_string(), "9".to_string(), c);
    let found = index.range("f", "1".to_string(), "9".to_string());
    assert_eq!(sorted(found.clone()), bytes_of(&[a, b]));
    assert!(!contains_id(&found, &c));
}

#[test]
fn range_orders_values_as_strings() {
    let mut index = RangeIndex::new();
    index.insert("f".to_string(), "10".to_string(), id(10));
    index.insert("f".to_string(), "9".to_string(), id(9));
    index.insert("f".to_string(), "2".to_string(), id(2));
    index.insert("f".to_string(), "".to_string(), id(0));
    assert_eq!(sorted(index.range("f", "1".to_string(), "3".to_string())), bytes_of(&[id(2), id(10)]));
    assert_eq!(sorted(index.range("f", "".to_string(), "1".to_string())), bytes_of(&[id(0)]));
    assert_eq!(sorted(index.range("f", "9".to_string(), "99".to_string())), bytes_of(&[id(9)]));
    assert_eq!(sorted(index.range("f", "a".to_string(), "b".to_string())), bytes_of(&[]));
}

#[test]
fn range_orders_by_code_point_beyond_ascii() {
    let mut index = RangeIndex::new();
    index.insert("f".to_string(), "z".to_string(), id(1));
    index.insert("f".to_string(), "é".to_string(), id(2));
    index.insert("f".to_string(), "\u{10000}".to_string(), id(3));
    index.insert("f".to_string(), "\u{ffff}".to_string(), id(4));
    assert_eq!(sorted(index.range("f", "z".to_string(), "\u{ffff}".to_string())), bytes_of(&[id(1), id(2)]));
    assert_eq!(
        sorted(index.range("f", "\u{ffff}".to_string(), "\u{10001}".to_string())),
        bytes_of(&[id(3), id(4)])
    );
}

#[test]
fn range_of_a_field_without_tree_is_empty() {
    let mut index = RangeIndex::new();
    index.insert("f".to_string(), "1".to_string(), id(1));
    assert!(index.range("g", "0".to_string(), "9".to_string()).is_empty());
}

#[test]
fn range_with_the_bounds_reversed_or_equal_is_empty() {
    let mut index = RangeIndex::new();
    index.insert("f".to_string(), "1".to_string(), id(1));
    index.insert("f".to_string(), "5".to_string(), id(2));
    assert!(index.range("f", "9".to_string(), "1".to_string()).is_empty());
    assert!(index.range("f", "1".to_string(), "1".to_string()).is_empty());
}

#[test]
fn range_lists_an_identifier_of_two_buckets_once() {
    let mut index = RangeIndex::new();
    index.insert("f".to_string(), "1".to_string(), id(1));
    index.insert("f".to_string(), "2".to_string(), id(1));
    index.insert("f".to_string(), "2".to_string(), id(2));
    index.insert("f".to_string(), "2".to_string(), id(2));
    assert_eq!(sorted(index.range("f", "0".to_string(), "3".to_string())), bytes_of(&[id(1), id(2)]));
}

#[test]
fn range_keeps_the_fields_apart() {
    let mut index = RangeIndex::new();
    index.insert("f".to_string(), "1".to_string(), id(1));
    index.insert("g".to_string(), "1".to_string(), id(2));
    assert_eq!(index.range("f", "0".to_string(), "9".to_string()), vec![id(1)]);
    assert_eq!(index.range("g", "0".to_string(), "9".to_string()), vec![id(2)]);
}

#[test]
fn range_remove_withdraws_from_one_bucket() {
    let mut index = RangeIndex::new();
    index.insert("f".to_string(), "1".to_string(), id(1));
    index.insert("f".to_string(), "2".to_string(), id(1));
    index.insert("f".to_string(), "2".to_string(), id(2));
    index.remove(&"f".to_string(), &"2".to_string(), &id(1));
    index.remove(&"f".to_string(), &"3".to_string(), &id(1));
    index.remove(&"g".to_string(), &"1".to_string(), &id(1));
    assert_eq!(index.range("f", "2".to_string(), "3".to_string()), vec![id(2)]);
    assert_eq!(index.range("f", "1".to_string(), "2".to_string()), vec![id(1)]);
}

#[test]
fn range_remove_tree_deletes_the_field() {
    let mut index = RangeIndex::new();
    index.insert("f".to_string(), "1".to_string(), id(1));
    index.insert("g".to_string(), "1".to_string(), id(2));
    index.remove_tree("f");
    index.remove_tree("h");
    assert!(index.range("f", "0".to_string(), "9".to_string()).is_empty());
    assert_eq!(index.range("g", "0".to_string(), "9".to_string()), vec![id(2)]);
}

#[test]
fn value_tree_scans_in_any_order_of_insertion() {
    let mut tree = ValueTree::new();
    for value in ["m", "c", "x", "a", "q", "c", "m"] {
        tree.add(value.to_string(), &id(value.as_bytes()[0]));
    }
    assert_eq!(
        sorted(tree.scan(&"b".to_string(), &"r".to_string())),
        bytes_of(&[id(b'c'), id(b'm'), id(b'q')])
    );
    tree.discard(&"m".to_string(), &id(b'm'));
    tree.discard(&"zz".to_string(), &id(b'm'));
    assert_eq!(sorted(tree.scan(&"b".to_string(), &"r".to_string())), bytes_of(&[id(b'c'), id(b'q')]));
    assert_eq!(sorted(tree.scan(&"".to_string(), &"zzz".to_string())), bytes_of(&[id(b'a'), id(b'c'), id(b'q'), id(b'x')]));
}

#[test]
fn full_text_finds_each_word_in_lower_case() {
    let mut index = InvertedIndex::new();
    let x = id(1);
    index.insert(&x, "Hello World");
    assert!(contains_id(&index.search(&"hello".to_string()), &x));
    assert!(contains_id(&index.search(&"world".to_string()), &x));
    index.remove(&x, "Hello World");
    assert!(!contains_id(&index.search(&"hello".to_string()), &x));
    assert!(!contains_id(&index.search(&"world".to_string()), &x));
}

#[test]
fn full_text_query_ignores_case() {
    let mut index = InvertedIndex::new();
    index.insert(&id(1), "Hello World");
    assert_eq!(index.search(&"HELLO".to_string()), vec![id(1)]);
    assert_eq!(index.search(&"  wOrLd ".to_string()), vec![id(1)]);
    assert!(index.search(&"hell".to_string()).is_empty());
    assert!(index.search(&"".to_string()).is_empty());
}

#[test]
fn full_text_query_of_several_words_finds_the_union() {
    let mut index = InvertedIndex::new();
    index.insert(&id(1), "red apple");
    index.insert(&id(2), "green apple");
    index.insert(&id(3), "green pear");
    assert_eq!(sorted(index.search(&"red pear".to_string())), bytes_of(&[id(1), id(3)]));
    assert_eq!(sorted(index.search(&"apple green".to_string())), bytes_of(&[id(1), id(2), id(3)]));
    assert_eq!(sorted(index.search(&"apple apple".to_string())), bytes_of(&[id(1), id(2)]));
}

#[test]
fn full_text_insert_twice_is_one_membership() {
    let mut index = InvertedIndex::new();
    index.insert(&id(1), "same same SAME");
    index.insert(&id(1), "same");
    assert_eq!(index.search(&"same".to_string()), vec![id(1)]);
}

#[test]
fn full_text_remove_withdraws_only_the_words_given() {
    let mut index = InvertedIndex::new();
    index.insert(&id(1), "red apple");
    index.insert(&id(2), "red pear");
    index.remove(&id(1), "RED banana");
    assert_eq!(index.search(&"red".to_string()), vec![id(2)]);
    assert_eq!(index.search(&"apple".to_string()), vec![id(1)]);
}
