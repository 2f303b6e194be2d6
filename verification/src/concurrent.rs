//! The concurrent maps and sets that hold the primary table and the
//! indices, and what this library relies on of each of their operations.
//!
//! Every operation takes the collection by `&mut` where it changes it, so
//! that its contents before and after the call can be told apart.

use crate::document::{Document, DocumentView, ObjectId};
use crate::index::range::ValueTree;
use dashmap::mapref::one::Ref;
use dashmap::{DashMap, DashSet};
use vstd::prelude::*;

verus! {

#[verifier::external_type_specification]
#[verifier::external_body]
#[verifier::reject_recursive_types(K)]
#[verifier::reject_recursive_types(V)]
#[verifier::reject_recursive_types(S)]
pub struct ExDashMap<K, V, S>(DashMap<K, V, S>);

#[verifier::external_type_specification]
#[verifier::external_body]
#[verifier::reject_recursive_types(K)]
#[verifier::reject_recursive_types(S)]
pub struct ExDashSet<K, S>(DashSet<K, S>);

#[verifier::external_type_specification]
#[verifier::external_body]
#[verifier::reject_recursive_types(K)]
#[verifier::reject_recursive_types(V)]
#[verifier::reject_recursive_types(S)]
pub struct ExRef<'a, K, V, S>(Ref<'a, K, V, S>);

/// A set of identifiers.
pub type IdSet = DashSet<[u8; 12]>;

/// A map from a string to the identifiers filed under it.
pub type BucketMap = DashMap<String, DashSet<[u8; 12]>>;

/// A map from a string to the one identifier that claims it.
pub type ClaimMap = DashMap<String, [u8; 12]>;

/// A map from an identifier to the document stored under it.
pub type RecordMap = DashMap<[u8; 12], Document>;

/// A map from a field to the tree of its values.
pub type TreeMap = DashMap<String, ValueTree>;

/// The identifiers that `set` holds.
pub uninterp spec fn members(set: DashSet<[u8; 12]>) -> Set<Seq<u8>>;

/// The keys of `map`, each with the identifiers filed under it.
pub uninterp spec fn buckets(map: DashMap<String, DashSet<[u8; 12]>>) -> Map<Seq<char>, Set<Seq<u8>>>;

/// The keys of `map`, each with the identifier that claims it.
pub uninterp spec fn claims(map: DashMap<String, [u8; 12]>) -> Map<Seq<char>, Seq<u8>>;

/// The identifiers of `map`, each with the document stored under it.
pub uninterp spec fn records(map: DashMap<[u8; 12], Document>) -> Map<Seq<u8>, DocumentView>;

/// The fields of `map`, each with the tree stored under it.
pub uninterp spec fn trees(map: DashMap<String, ValueTree>) -> Map<Seq<char>, ValueTree>;

/// The tree that `guard` lends.
pub uninterp spec fn lent_tree(guard: Ref<'_, String, ValueTree>) -> ValueTree;

/// The document that `guard` lends.
pub uninterp spec fn lent_record(guard: Ref<'_, [u8; 12], Document>) -> DocumentView;

/// Whether `ids` lists the elements of `set`, each once.
pub open spec fn lists_ids(ids: Seq<ObjectId>, set: Set<Seq<u8>>) -> bool {
    &&& forall|i: int, j: int| 0 <= i < j < ids.len() ==> ids[i]@ != ids[j]@
    &&& forall|i: int| 0 <= i < ids.len() ==> set.contains(#[trigger] ids[i]@)
    &&& forall|id: Seq<u8>|
        set.contains(id) ==> exists|i: int| 0 <= i < ids.len() && #[trigger] ids[i]@ == id
}

/// Whether `keys` lists the elements of `set`, each once.
pub open spec fn lists_keys(keys: Seq<String>, set: Set<Seq<char>>) -> bool {
    &&& forall|i: int, j: int| 0 <= i < j < keys.len() ==> keys[i]@ != keys[j]@
    &&& forall|i: int| 0 <= i < keys.len() ==> set.contains(#[trigger] keys[i]@)
    &&& forall|key: Seq<char>|
        set.contains(key) ==> exists|i: int| 0 <= i < keys.len() && #[trigger] keys[i]@ == key
}

/// Whether `entries` lists the pairs of `map`, each once.
pub open spec fn lists_claims(entries: Seq<(String, ObjectId)>, map: Map<Seq<char>, Seq<u8>>) -> bool {
    &&& forall|i: int, j: int| 0 <= i < j < entries.len() ==> entries[i].0@ != entries[j].0@
    &&& forall|i: int|
        0 <= i < entries.len() ==> map.contains_key(#[trigger] entries[i].0@) && map[entries[i].0@]
            == entries[i].1@
    &&& forall|key: Seq<char>|
        map.contains_key(key) ==> exists|i: int|
            0 <= i < entries.len() && #[trigger] entries[i].0@ == key
}

/// Calls `DashSet::new`, which makes a set without elements.
#[verifier::external_body]
pub(crate) fn set_new() -> (set: IdSet)
    ensures
        members(set) == Set::<Seq<u8>>::empty(),
{
    DashSet::new()
}

/// Calls `DashSet::insert`, which adds the key and says whether it was new.
#[verifier::external_body]
pub(crate) fn set_insert(set: &mut IdSet, id: &ObjectId) -> (fresh: bool)
    ensures
        members(*final(set)) == members(*old(set)).insert(id@),
        fresh == !members(*old(set)).contains(id@),
{
    set.insert(id.bytes)
}

/// Calls `DashSet::remove`, which takes the key out where it is present.
#[verifier::external_body]
pub(crate) fn set_remove(set: &mut IdSet, id: &ObjectId)
    ensures
        members(*final(set)) == members(*old(set)).remove(id@),
{
    set.remove(&id.bytes);
}

/// Calls `DashSet::iter` and collects the keys, which come in no
/// particular order, each once.
#[verifier::external_body]
pub(crate) fn set_ids(set: &IdSet) -> (ids: Vec<ObjectId>)
    ensures
        lists_ids(ids@, members(*set)),
{
    set.iter().map(|key| ObjectId { bytes: *key }).collect()
}

/// Calls `DashMap::new`, which makes a map without entries.
#[verifier::external_body]
pub(crate) fn buckets_new() -> (made: BucketMap)
    ensures
        buckets(made).dom() == Set::<Seq<char>>::empty(),
{
    DashMap::new()
}

/// Calls `DashMap::remove`, which takes the entry of the key out of the map
/// and returns it, or returns nothing where the key is absent.
#[verifier::external_body]
pub(crate) fn buckets_take(map: &mut BucketMap, key: &str) -> (set: Option<IdSet>)
    ensures
        buckets(*final(map)) == buckets(*old(map)).remove(key@),
        set is Some == buckets(*old(map)).contains_key(key@),
        set is Some ==> members(set->0) == buckets(*old(map))[key@],
{
    map.remove(key).map(|entry| entry.1)
}

/// Calls `DashMap::insert`, which stores the value under the key in place
/// of what was there.
#[verifier::external_body]
pub(crate) fn buckets_put(map: &mut BucketMap, key: String, set: IdSet)
    ensures
        buckets(*final(map)) == buckets(*old(map)).insert(key@, members(set)),
{
    map.insert(key, set);
}

/// Calls `DashMap::get` and, on the set found, `DashSet::iter`, collecting
/// its keys, which come in no particular order, each once.
#[verifier::external_body]
pub(crate) fn buckets_ids(map: &BucketMap, key: &str) -> (ids: Option<Vec<ObjectId>>)
    ensures
        ids is Some == buckets(*map).contains_key(key@),
        ids is Some ==> lists_ids(ids->0@, buckets(*map)[key@]),
{
    map.get(key).map(|set| set.iter().map(|key| ObjectId { bytes: *key }).collect())
}

/// Calls `DashMap::iter` and collects the keys, which come in no particular
/// order, each once.
#[verifier::external_body]
pub(crate) fn buckets_keys(map: &BucketMap) -> (keys: Vec<String>)
    ensures
        lists_keys(keys@, buckets(*map).dom()),
{
    map.iter().map(|entry| entry.key().clone()).collect()
}

/// Calls `DashMap::new`, which makes a map without entries.
#[verifier::external_body]
pub(crate) fn claims_new() -> (made: ClaimMap)
    ensures
        claims(made).dom() == Set::<Seq<char>>::empty(),
{
    DashMap::new()
}

/// Calls `DashMap::get`, which finds the entry of the key.
#[verifier::external_body]
pub(crate) fn claims_get(map: &ClaimMap, key: &str) -> (id: Option<ObjectId>)
    ensures
        id is Some == claims(*map).contains_key(key@),
        id is Some ==> id->0@ == claims(*map)[key@],
{
    map.get(key).map(|entry| ObjectId { bytes: *entry })
}

/// Calls `DashMap::insert`, which stores the value under the key in place
/// of what was there.
#[verifier::external_body]
pub(crate) fn claims_insert(map: &mut ClaimMap, key: String, id: &ObjectId)
    ensures
        claims(*final(map)) == claims(*old(map)).insert(key@, id@),
{
    map.insert(key, id.bytes);
}

/// Calls `DashMap::remove`, which takes the entry of the key out where it
/// is present.
#[verifier::external_body]
pub(crate) fn claims_remove(map: &mut ClaimMap, key: &str)
    ensures
        claims(*final(map)) == claims(*old(map)).remove(key@),
{
    map.remove(key);
}

/// Calls `DashMap::iter` and collects the entries, which come in no
/// particular order, each once.
#[verifier::external_body]
pub(crate) fn claims_list(map: &ClaimMap) -> (entries: Vec<(String, ObjectId)>)
    ensures
        lists_claims(entries@, claims(*map)),
{
    map.iter().map(|entry| (entry.key().clone(), ObjectId { bytes: *entry.value() })).collect()
}

/// Calls `DashMap::new`, which makes a map without entries.
#[verifier::external_body]
pub(crate) fn trees_new() -> (made: TreeMap)
    ensures
        trees(made).dom() == Set::<Seq<char>>::empty(),
{
    DashMap::new()
}

/// Calls `DashMap::remove`, which takes the entry of the key out of the map
/// and returns it, or returns nothing where the key is absent.
#[verifier::external_body]
pub(crate) fn trees_take(map: &mut TreeMap, key: &str) -> (tree: Option<ValueTree>)
    ensures
        trees(*final(map)) == trees(*old(map)).remove(key@),
        tree is Some == trees(*old(map)).contains_key(key@),
        tree is Some ==> tree->0 == trees(*old(map))[key@],
{
    map.remove(key).map(|entry| entry.1)
}

/// Calls `DashMap::insert`, which stores the value under the key in place
/// of what was there.
#[verifier::external_body]
pub(crate) fn trees_put(map: &mut TreeMap, key: String, tree: ValueTree)
    ensures
        trees(*final(map)) == trees(*old(map)).insert(key@, tree),
{
    map.insert(key, tree);
}

/// Calls `DashMap::get`, which finds the entry of the key and returns a
/// guard that lends it.
#[verifier::external_body]
pub(crate) fn trees_get<'a>(map: &'a TreeMap, key: &str) -> (guard: Option<
    Ref<'a, String, ValueTree>,
>)
    ensures
        guard is Some == trees(*map).contains_key(key@),
        guard is Some ==> lent_tree(guard->0) == trees(*map)[key@],
{
    map.get(key)
}

/// Calls `Ref::value`, which lends the value of the guard's entry.
#[verifier::external_body]
pub(crate) fn tree_value<'a>(guard: &'a Ref<'a, String, ValueTree>) -> (tree: &'a ValueTree)
    ensures
        *tree == lent_tree(*guard),
{
    guard.value()
}

/// Calls `DashMap::new`, which makes a map without entries.
#[verifier::external_body]
pub(crate) fn records_new() -> (made: RecordMap)
    ensures
        records(made).dom() == Set::<Seq<u8>>::empty(),
{
    DashMap::new()
}

/// Calls `DashMap::insert`, which stores the value under the key and
/// returns the value that was there.
#[verifier::external_body]
pub(crate) fn records_insert(map: &mut RecordMap, id: &ObjectId, document: Document) -> (previous:
    Option<Document>)
    ensures
        records(*final(map)) == records(*old(map)).insert(id@, document@),
        previous is Some == records(*old(map)).contains_key(id@),
        previous is Some ==> previous->0@ == records(*old(map))[id@],
{
    map.insert(id.bytes, document)
}

/// Calls `DashMap::remove`, which takes the entry of the key out of the map
/// and returns it, or returns nothing where the key is absent.
#[verifier::external_body]
pub(crate) fn records_remove(map: &mut RecordMap, id: &ObjectId) -> (removed: Option<Document>)
    ensures
        records(*final(map)) == records(*old(map)).remove(id@),
        removed is Some == records(*old(map)).contains_key(id@),
        removed is Some ==> removed->0@ == records(*old(map))[id@],
{
    map.remove(&id.bytes).map(|entry| entry.1)
}

/// Calls `DashMap::get`, which finds the entry of the key and returns a
/// guard that lends it.
#[verifier::external_body]
pub(crate) fn records_ref<'a>(map: &'a RecordMap, id: &ObjectId) -> (guard: Option<
    Ref<'a, [u8; 12], Document>,
>)
    ensures
        guard is Some == records(*map).contains_key(id@),
        guard is Some ==> lent_record(guard->0) == records(*map)[id@],
{
    map.get(&id.bytes)
}

/// Calls `Ref::value`, which lends the value of the guard's entry.
#[verifier::external_body]
pub(crate) fn record_value<'a>(guard: &'a Ref<'a, [u8; 12], Document>) -> (document: &'a Document)
    ensures
        document@ == lent_record(*guard),
{
    guard.value()
}

/// Calls `DashMap::iter` and collects the keys, which come in no particular
/// order, each once.
#[verifier::external_body]
pub(crate) fn records_ids(map: &RecordMap) -> (ids: Vec<ObjectId>)
    ensures
        lists_ids(ids@, records(*map).dom()),
{
    map.iter().map(|entry| ObjectId { bytes: *entry.key() }).collect()
}

} // verus!
