//! The four secondary indices, and what they share: buckets of identifiers
//! filed under a string.

pub mod error;
pub mod hash;
pub mod inverted_index;
pub mod range;
pub mod tags;

use crate::concurrent::{
    buckets, buckets_put, buckets_take, lists_ids, members, set_insert, set_new, set_remove,
    BucketMap,
};
use crate::document::ObjectId;
use vstd::prelude::*;

verus! {

/// The mathematical content of an index of buckets: each key with the
/// identifiers filed under it.
pub type BucketView = Map<Seq<char>, Set<Seq<u8>>>;

/// The identifiers filed under `key`; none where the key is absent.
pub open spec fn bucket(index: BucketView, key: Seq<char>) -> Set<Seq<u8>> {
    if index.contains_key(key) {
        index[key]
    } else {
        Set::empty()
    }
}

/// `index` after `id` has been filed under `key`.
pub open spec fn with_member(index: BucketView, key: Seq<char>, id: Seq<u8>) -> BucketView {
    index.insert(key, bucket(index, key).insert(id))
}

/// `index` after `id` has been withdrawn from `key`. The bucket stays,
/// even where it is left empty.
pub open spec fn without_member(index: BucketView, key: Seq<char>, id: Seq<u8>) -> BucketView {
    if index.contains_key(key) {
        index.insert(key, index[key].remove(id))
    } else {
        index
    }
}

/// `index` after `id` has been filed under each of `keys`.
pub open spec fn with_members(index: BucketView, keys: Seq<Seq<char>>, id: Seq<u8>) -> BucketView
    decreases keys.len(),
{
    if keys.len() == 0 {
        index
    } else {
        with_member(with_members(index, keys.drop_last(), id), keys.last(), id)
    }
}

/// `index` after `id` has been withdrawn from each of `keys`.
pub open spec fn without_members(index: BucketView, keys: Seq<Seq<char>>, id: Seq<u8>)
    -> BucketView
    decreases keys.len(),
{
    if keys.len() == 0 {
        index
    } else {
        without_member(without_members(index, keys.drop_last(), id), keys.last(), id)
    }
}

/// The identifiers that `ids` holds.
pub open spec fn id_set(ids: Seq<ObjectId>) -> Set<Seq<u8>> {
    Set::new(|id: Seq<u8>| exists|i: int| 0 <= i < ids.len() && #[trigger] ids[i]@ == id)
}

/// Whether no identifier occurs twice in `ids`.
pub open spec fn distinct_ids(ids: Seq<ObjectId>) -> bool {
    forall|i: int, j: int| 0 <= i < j < ids.len() ==> ids[i]@ != ids[j]@
}

/// A list holds the elements of a set, each once, exactly when it holds no
/// identifier twice and holds the set's identifiers.
pub proof fn lemma_lists_ids(ids: Seq<ObjectId>, set: Set<Seq<u8>>)
    ensures
        lists_ids(ids, set) <==> distinct_ids(ids) && id_set(ids) == set,
{
    if lists_ids(ids, set) {
        assert(id_set(ids) =~= set);
    }
    if distinct_ids(ids) && id_set(ids) == set {
        assert forall|i: int| 0 <= i < ids.len() implies set.contains(#[trigger] ids[i]@) by {
            assert(id_set(ids).contains(ids[i]@));
        }
    }
}

/// Filing an identifier twice under a key is the same as filing it once.
pub proof fn lemma_with_member_idempotent(index: BucketView, key: Seq<char>, id: Seq<u8>)
    ensures
        with_member(with_member(index, key, id), key, id) == with_member(index, key, id),
{
    let once = with_member(index, key, id);
    assert(once[key].insert(id) =~= once[key]);
    assert(with_member(once, key, id) =~= once);
}

/// What a bucket holds after an identifier has been filed under each of
/// `keys`: the buckets of those keys gain the identifier, every other
/// bucket is as it was.
pub proof fn lemma_with_members_buckets(index: BucketView, keys: Seq<Seq<char>>, id: Seq<u8>)
    ensures
        forall|key: Seq<char>| #[trigger]
            bucket(with_members(index, keys, id), key) == if keys.contains(key) {
                bucket(index, key).insert(id)
            } else {
                bucket(index, key)
            },
    decreases keys.len(),
{
    if keys.len() > 0 {
        let front = keys.drop_last();
        let last = keys.last();
        lemma_with_members_buckets(index, front, id);
        assert forall|key: Seq<char>| #[trigger]
            bucket(with_members(index, keys, id), key) == if keys.contains(key) {
                bucket(index, key).insert(id)
            } else {
                bucket(index, key)
            } by {
            assert(keys[keys.len() - 1] == last);
            let rest = with_members(index, front, id);
            assert(with_members(index, keys, id) == with_member(rest, last, id));
            assert(bucket(rest, key) == if front.contains(key) {
                bucket(index, key).insert(id)
            } else {
                bucket(index, key)
            });
            if front.contains(key) {
                let i = choose|i: int| 0 <= i < front.len() && front[i] == key;
                assert(keys[i] == key);
                assert(bucket(index, key).insert(id).insert(id) =~= bucket(index, key).insert(id));
            }
            if keys.contains(key) && key != last {
                let i = choose|i: int| 0 <= i < keys.len() && keys[i] == key;
                assert(front[i] == key);
            }
        }
    } else {
        assert forall|key: Seq<char>| !keys.contains(key) by {}
    }
}

/// What a bucket holds after an identifier has been withdrawn from a key:
/// the key's bucket loses the identifier, every other bucket is as it was.
pub proof fn lemma_without_member_bucket(
    index: BucketView,
    key: Seq<char>,
    id: Seq<u8>,
    other: Seq<char>,
)
    ensures
        bucket(without_member(index, key, id), other) == if other == key {
            bucket(index, other).remove(id)
        } else {
            bucket(index, other)
        },
{
    if other == key {
        assert(bucket(without_member(index, key, id), other) =~= bucket(index, other).remove(id));
    }
}

/// What a bucket holds after an identifier has been withdrawn from each of
/// `keys`: the buckets of those keys lose the identifier, every other
/// bucket is as it was.
pub proof fn lemma_without_members_buckets(index: BucketView, keys: Seq<Seq<char>>, id: Seq<u8>)
    ensures
        forall|key: Seq<char>| #[trigger]
            bucket(without_members(index, keys, id), key) == if keys.contains(key) {
                bucket(index, key).remove(id)
            } else {
                bucket(index, key)
            },
    decreases keys.len(),
{
    if keys.len() > 0 {
        let front = keys.drop_last();
        let last = keys.last();
        lemma_without_members_buckets(index, front, id);
        let rest = without_members(index, front, id);
        assert forall|key: Seq<char>| #[trigger]
            bucket(without_members(index, keys, id), key) == if keys.contains(key) {
                bucket(index, key).remove(id)
            } else {
                bucket(index, key)
            } by {
            lemma_without_member_bucket(rest, last, id, key);
            assert(keys[keys.len() - 1] == last);
            if front.contains(key) {
                let i = choose|i: int| 0 <= i < front.len() && front[i] == key;
                assert(keys[i] == key);
                assert(bucket(index, key).remove(id).remove(id) =~= bucket(index, key).remove(id));
            }
            if keys.contains(key) && key != last {
                let i = choose|i: int| 0 <= i < keys.len() && keys[i] == key;
                assert(front[i] == key);
            }
        }
    } else {
        assert forall|key: Seq<char>| !keys.contains(key) by {}
    }
}

/// Whether `list` holds `id`.
pub fn contains_id(list: &Vec<ObjectId>, id: &ObjectId) -> (found: bool)
    ensures
        found == id_set(list@).contains(id@),
{
    let mut i: usize = 0;
    while i < list.len()
        invariant
            i <= list@.len(),
            forall|j: int| 0 <= j < i ==> list@[j]@ != id@,
        decreases list@.len() - i,
    {
        if list[i].same(id) {
            return true;
        }
        i += 1;
    }
    false
}

/// The identifiers of a list with one more at its end.
pub proof fn lemma_id_set_push(ids: Seq<ObjectId>, id: ObjectId)
    ensures
        id_set(ids.push(id)) == id_set(ids).insert(id@),
{
    let longer = ids.push(id);
    assert forall|x: Seq<u8>| id_set(longer).contains(x) implies id_set(ids).insert(id@).contains(
        x,
    ) by {
        let i = choose|i: int| 0 <= i < longer.len() && #[trigger] longer[i]@ == x;
        if i < ids.len() {
            assert(ids[i]@ == x);
        }
    }
    assert forall|x: Seq<u8>| id_set(ids).insert(id@).contains(x) implies id_set(longer).contains(
        x,
    ) by {
        if id_set(ids).contains(x) {
            let i = choose|i: int| 0 <= i < ids.len() && #[trigger] ids[i]@ == x;
            assert(longer[i]@ == x);
        } else {
            assert(longer[ids.len() as int]@ == x);
        }
    }
    assert(id_set(longer) =~= id_set(ids).insert(id@));
}

/// Appends to `collector` each identifier of `ids` that it does not hold.
pub(crate) fn merge_ids(collector: &mut Vec<ObjectId>, ids: &Vec<ObjectId>)
    requires
        distinct_ids(old(collector)@),
    ensures
        distinct_ids(final(collector)@),
        id_set(final(collector)@) == id_set(old(collector)@).union(id_set(ids@)),
{
    let ghost before = collector@;
    let mut j: usize = 0;
    assert(id_set(ids@.take(0)) =~= Set::<Seq<u8>>::empty());
    assert(id_set(before).union(Set::<Seq<u8>>::empty()) =~= id_set(before));
    while j < ids.len()
        invariant
            j <= ids@.len(),
            distinct_ids(collector@),
            id_set(collector@) == id_set(before).union(id_set(ids@.take(j as int))),
        decreases ids@.len() - j,
    {
        let id = ids[j];
        let ghost held = collector@;
        if !contains_id(collector, &id) {
            collector.push(id);
            proof {
                lemma_id_set_push(held, id);
                assert forall|a: int, b: int| 0 <= a < b < collector@.len() implies collector@[a]@
                    != collector@[b]@ by {
                    if b == held.len() {
                        assert(held[a]@ == collector@[a]@);
                        assert(!id_set(held).contains(id@));
                    }
                }
            }
        }
        proof {
            assert(ids@.take(j + 1) =~= ids@.take(j as int).push(ids@[j as int]));
            lemma_id_set_push(ids@.take(j as int), ids@[j as int]);
            assert(id_set(collector@) =~= id_set(before).union(id_set(ids@.take(j + 1))));
        }
        j += 1;
    }
    assert(ids@.take(ids@.len() as int) =~= ids@);
}

/// Files `id` under `key`, making the bucket where the key is new.
pub(crate) fn add_member(map: &mut BucketMap, key: String, id: &ObjectId)
    ensures
        buckets(*final(map)) == with_member(buckets(*old(map)), key@, id@),
{
    let taken = buckets_take(map, key.as_str());
    let mut set = match taken {
        Some(set) => set,
        None => set_new(),
    };
    set_insert(&mut set, id);
    buckets_put(map, key, set);
    assert(buckets(*map) =~= with_member(buckets(*old(map)), key@, id@));
}

/// Withdraws `id` from `key`, where the key has a bucket.
pub(crate) fn drop_member(map: &mut BucketMap, key: &str, id: &ObjectId)
    ensures
        buckets(*final(map)) == without_member(buckets(*old(map)), key@, id@),
{
    let taken = buckets_take(map, key);
    match taken {
        Some(set) => {
            let mut set = set;
            set_remove(&mut set, id);
            buckets_put(map, key.to_owned(), set);
            assert(buckets(*map) =~= without_member(buckets(*old(map)), key@, id@));
        },
        None => {
            assert(buckets(*map) =~= buckets(*old(map)));
        },
    }
}

} // verus!
