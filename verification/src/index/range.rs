//! The range index: for each field, its values in order, each with the
//! identifiers that hold it.

use super::{
    bucket, distinct_ids, id_set, lemma_lists_ids, merge_ids, with_member, without_member,
    BucketView,
};
use crate::concurrent::{
    lists_ids, members, set_ids, set_insert, set_new, set_remove, tree_value, trees, trees_get,
    trees_new, trees_put, trees_take, IdSet, TreeMap,
};
use crate::document::ObjectId;
use crate::text::{
    comes_before, lemma_precedes_irreflexive, lemma_precedes_total, lemma_precedes_transitive,
    precedes, within,
};
use vstd::prelude::*;

verus! {

/// The mathematical content of a range index: each field with its values,
/// each value with the identifiers that hold it.
pub type RangeView = Map<Seq<char>, BucketView>;

/// The values of `field`; none where the field has no tree.
pub open spec fn tree_of(index: RangeView, field: Seq<char>) -> BucketView {
    if index.contains_key(field) {
        index[field]
    } else {
        BucketView::empty()
    }
}

/// `index` after `id` has been filed under `value` of `field`.
pub open spec fn with_entry(index: RangeView, field: Seq<char>, value: Seq<char>, id: Seq<u8>)
    -> RangeView {
    index.insert(field, with_member(tree_of(index, field), value, id))
}

/// `index` after `id` has been withdrawn from `value` of `field`.
pub open spec fn without_entry(index: RangeView, field: Seq<char>, value: Seq<char>, id: Seq<u8>)
    -> RangeView {
    if index.contains_key(field) {
        index.insert(field, without_member(index[field], value, id))
    } else {
        index
    }
}

/// The identifiers that `tree` files under a value from `from` (included)
/// to `to` (excluded).
pub open spec fn span(tree: BucketView, from: Seq<char>, to: Seq<char>) -> Set<Seq<u8>> {
    Set::new(
        |id: Seq<u8>|
            exists|value: Seq<char>|
                tree.contains_key(value) && within(value, from, to) && tree[value].contains(id),
    )
}

/// Interval: a scan takes in what is filed under its lower bound, where
/// the bounds are in order, and leaves out what is filed under its upper
/// bound alone.
pub proof fn lemma_span_bounds(tree: BucketView, from: Seq<char>, to: Seq<char>, id: Seq<u8>)
    ensures
        precedes(from, to) && bucket(tree, from).contains(id) ==> span(tree, from, to).contains(id),
        (forall|value: Seq<char>|
            bucket(tree, value).contains(id) ==> value == to) ==> !span(tree, from, to).contains(
            id,
        ),
        !precedes(from, to) ==> span(tree, from, to) == Set::<Seq<u8>>::empty(),
{
    lemma_precedes_irreflexive(from);
    lemma_precedes_irreflexive(to);
    if precedes(from, to) && bucket(tree, from).contains(id) {
        assert(tree.contains_key(from) && within(from, from, to) && tree[from].contains(id));
    }
    if span(tree, from, to).contains(id) {
        let value = choose|value: Seq<char>|
            tree.contains_key(value) && within(value, from, to) && tree[value].contains(id);
        assert(bucket(tree, value).contains(id));
    }
    if !precedes(from, to) {
        assert forall|other: Seq<u8>| !span(tree, from, to).contains(other) by {
            if span(tree, from, to).contains(other) {
                let value = choose|value: Seq<char>|
                    tree.contains_key(value) && within(value, from, to) && tree[value].contains(
                        other,
                    );
                lemma_precedes_total(value, from);
                if precedes(from, value) {
                    lemma_precedes_transitive(from, value, to);
                }
            }
        }
        assert(span(tree, from, to) =~= Set::<Seq<u8>>::empty());
    }
}

/// What a bucket holds after an identifier has been withdrawn from a value
/// of a field: that bucket loses the identifier, every other bucket is as
/// it was.
pub proof fn lemma_without_entry_bucket(
    index: RangeView,
    field: Seq<char>,
    value: Seq<char>,
    id: Seq<u8>,
    other_field: Seq<char>,
    other_value: Seq<char>,
)
    ensures
        bucket(tree_of(without_entry(index, field, value, id), other_field), other_value) == if
            other_field == field && other_value == value {
            bucket(tree_of(index, other_field), other_value).remove(id)
        } else {
            bucket(tree_of(index, other_field), other_value)
        },
{
    if other_field == field {
        super::lemma_without_member_bucket(tree_of(index, field), value, id, other_value);
        if !index.contains_key(field) {
            assert(bucket(tree_of(index, other_field), other_value).remove(id) =~= bucket(
                tree_of(index, other_field),
                other_value,
            ));
        }
    }
}

/// One value of a field, with the identifiers that hold it.
struct Bucket {
    value: String,
    ids: IdSet,
}

/// The values of one field in ascending order, each once.
pub struct ValueTree {
    buckets: Vec<Bucket>,
}

impl View for ValueTree {
    type V = BucketView;

    closed spec fn view(&self) -> BucketView {
        Map::new(
            |value: Seq<char>| self.holds(value),
            |value: Seq<char>| self.ids(self.slot(value)),
        )
    }
}

impl ValueTree {
    /// The value at position `i`.
    pub closed spec fn key(self, i: int) -> Seq<char> {
        self.buckets@[i].value@
    }

    /// The identifiers at position `i`.
    pub closed spec fn ids(self, i: int) -> Set<Seq<u8>> {
        members(self.buckets@[i].ids)
    }

    /// The number of values.
    pub closed spec fn size(self) -> int {
        self.buckets@.len() as int
    }

    /// Whether `value` is among the values.
    pub closed spec fn holds(self, value: Seq<char>) -> bool {
        exists|i: int| 0 <= i < self.size() && #[trigger] self.key(i) == value
    }

    /// A position of `value`, where it is among the values.
    pub closed spec fn slot(self, value: Seq<char>) -> int {
        choose|i: int| 0 <= i < self.size() && #[trigger] self.key(i) == value
    }

    /// Whether the values ascend strictly.
    pub closed spec fn wf(self) -> bool {
        forall|i: int, j: int|
            0 <= i < j < self.size() ==> precedes(#[trigger] self.key(i), #[trigger] self.key(j))
    }

    /// In a tree whose values ascend, each position is the only one of its
    /// value, and the view files the position's identifiers under it.
    proof fn lemma_slot(self, i: int)
        requires
            self.wf(),
            0 <= i < self.size(),
        ensures
            self@.contains_key(self.key(i)),
            self.slot(self.key(i)) == i,
            self@[self.key(i)] == self.ids(i),
    {
        let j = self.slot(self.key(i));
        assert(self.holds(self.key(i)));
        if j < i {
            assert(precedes(self.key(j), self.key(i)));
            lemma_precedes_irreflexive(self.key(i));
        } else if i < j {
            assert(precedes(self.key(i), self.key(j)));
            lemma_precedes_irreflexive(self.key(i));
        }
    }

    /// A tree that differs from this one in the identifiers at position
    /// `i` alone has the same values in the same order, and files those
    /// identifiers under the value at `i`.
    proof fn lemma_bucket_replaced(self, after: ValueTree, i: int)
        requires
            self.wf(),
            0 <= i < self.size(),
            after.size() == self.size(),
            forall|j: int| 0 <= j < self.size() ==> #[trigger] after.key(j) == self.key(j),
            forall|j: int| 0 <= j < self.size() && j != i ==> #[trigger] after.ids(j) == self.ids(j),
        ensures
            after.wf(),
            after@ == self@.insert(self.key(i), after.ids(i)),
    {
        assert forall|a: int, b: int| 0 <= a < b < after.size() implies precedes(
            #[trigger] after.key(a),
            #[trigger] after.key(b),
        ) by {
            assert(precedes(self.key(a), self.key(b)));
        }
        let expected = self@.insert(self.key(i), after.ids(i));
        assert forall|v: Seq<char>| after@.contains_key(v) <==> expected.contains_key(v) by {
            if after.holds(v) {
                let j = after.slot(v);
                assert(self.key(j) == v);
            }
            if self.holds(v) {
                let j = self.slot(v);
                assert(after.key(j) == v);
            }
            assert(after.key(i) == self.key(i));
        }
        assert forall|v: Seq<char>| after@.contains_key(v) implies after@[v] == expected[v] by {
            let j = after.slot(v);
            after.lemma_slot(j);
            self.lemma_slot(j);
            self.lemma_slot(i);
        }
        assert(after@ =~= expected);
    }

    /// The tree without values.
    pub fn new() -> (tree: Self)
        ensures
            tree.wf(),
            tree@ == BucketView::empty(),
    {
        let tree = ValueTree { buckets: Vec::new() };
        assert(tree@ =~= BucketView::empty());
        tree
    }

    /// The first position whose value does not come before `value`, found
    /// by halving, and whether that position holds `value` itself.
    fn locate(&self, value: &String) -> (place: (usize, bool))
        requires
            self.wf(),
        ensures
            place.0 <= self.size(),
            forall|j: int| 0 <= j < place.0 ==> precedes(#[trigger] self.key(j), value@),
            place.1 ==> place.0 < self.size() && self.key(place.0 as int) == value@,
            !place.1 ==> forall|j: int|
                place.0 <= j < self.size() ==> precedes(value@, #[trigger] self.key(j)),
            place.1 == self@.contains_key(value@),
    {
        let mut low: usize = 0;
        let mut high: usize = self.buckets.len();
        while low < high
            invariant
                low <= high <= self.size(),
                self.wf(),
                forall|j: int| 0 <= j < low ==> precedes(#[trigger] self.key(j), value@),
                forall|j: int| high <= j < self.size() ==> !precedes(#[trigger] self.key(j), value@),
            decreases high - low,
        {
            let middle = low + (high - low) / 2;
            if comes_before(&self.buckets[middle].value, value) {
                assert forall|j: int| 0 <= j < middle + 1 implies precedes(
                    #[trigger] self.key(j),
                    value@,
                ) by {
                    if j < middle {
                        assert(precedes(self.key(j), self.key(middle as int)));
                        lemma_precedes_transitive(self.key(j), self.key(middle as int), value@);
                    }
                }
                low = middle + 1;
            } else {
                assert forall|j: int| middle <= j < self.size() implies !precedes(
                    #[trigger] self.key(j),
                    value@,
                ) by {
                    if j > middle && precedes(self.key(j), value@) {
                        assert(precedes(self.key(middle as int), self.key(j)));
                        lemma_precedes_transitive(self.key(middle as int), self.key(j), value@);
                    }
                }
                high = middle;
            }
        }
        let i = low;
        let found = i < self.buckets.len() && !comes_before(value, &self.buckets[i].value);
        proof {
            if i < self.size() {
                lemma_precedes_total(self.key(i as int), value@);
            }
            if found {
                self.lemma_slot(i as int);
            } else {
                assert forall|j: int| i <= j < self.size() implies precedes(
                    value@,
                    #[trigger] self.key(j),
                ) by {
                    if j > i {
                        assert(precedes(self.key(i as int), self.key(j)));
                        lemma_precedes_transitive(value@, self.key(i as int), self.key(j));
                    }
                }
                if self.holds(value@) {
                    let j = self.slot(value@);
                    lemma_precedes_irreflexive(value@);
                }
            }
        }
        (i, found)
    }

    /// Files `id` under `value`.
    pub fn add(&mut self, value: String, id: &ObjectId)
        requires
            old(self).wf(),
        ensures
            final(self).wf(),
            final(self)@ == with_member(old(self)@, value@, id@),
    {
        let ghost before = *self;
        let place = self.locate(&value);
        let i = place.0;
        if place.1 {
            let mut held = self.buckets.remove(i);
            set_insert(&mut held.ids, id);
            self.buckets.insert(i, held);
            proof {
                before.lemma_slot(i as int);
                before.lemma_bucket_replaced(*self, i as int);
            }
        } else {
            let mut ids = set_new();
            set_insert(&mut ids, id);
            self.buckets.insert(i, Bucket { value, ids });
            proof {
                assert forall|j: int| 0 <= j < i implies #[trigger] self.key(j) == before.key(
                    j,
                ) && self.ids(j) == before.ids(j) by {}
                assert forall|j: int| i < j < self.size() implies #[trigger] self.key(j)
                    == before.key(j - 1) && self.ids(j) == before.ids(j - 1) by {}
                assert(self.key(i as int) == value@);
                assert(self.ids(i as int) =~= Set::<Seq<u8>>::empty().insert(id@));
                assert(self.wf()) by {
                    assert forall|a: int, b: int| 0 <= a < b < self.size() implies precedes(
                        #[trigger] self.key(a),
                        #[trigger] self.key(b),
                    ) by {
                        if b < i {
                            assert(precedes(before.key(a), before.key(b)));
                        } else if b == i {
                            assert(precedes(before.key(a), value@));
                        } else if a == i {
                            assert(precedes(value@, before.key(b - 1)));
                        } else if a < i {
                            assert(precedes(before.key(a), before.key(b - 1)));
                        } else {
                            assert(precedes(before.key(a - 1), before.key(b - 1)));
                        }
                    }
                }
                let expected = with_member(before@, value@, id@);
                assert forall|v: Seq<char>| self@.contains_key(v) <==> expected.contains_key(
                    v,
                ) by {
                    if self.holds(v) {
                        let j = self.slot(v);
                        if j < i {
                            assert(before.key(j) == v);
                        } else if j > i {
                            assert(before.key(j - 1) == v);
                        }
                    }
                    if before.holds(v) {
                        let j = before.slot(v);
                        if j < i {
                            assert(self.key(j) == v);
                        } else {
                            assert(self.key(j + 1) == v);
                        }
                    }
                    assert(self.key(i as int) == value@);
                }
                assert forall|v: Seq<char>| self@.contains_key(v) implies self@[v]
                    == expected[v] by {
                    let j = self.slot(v);
                    self.lemma_slot(j);
                    if j < i {
                        before.lemma_slot(j);
                    } else if j > i {
                        before.lemma_slot(j - 1);
                    }
                }
                assert(self@ =~= expected);
            }
        }
    }

    /// Withdraws `id` from `value`, where the tree has that value.
    pub fn discard(&mut self, value: &String, id: &ObjectId)
        requires
            old(self).wf(),
        ensures
            final(self).wf(),
            final(self)@ == without_member(old(self)@, value@, id@),
    {
        let ghost before = *self;
        let place = self.locate(value);
        let i = place.0;
        if place.1 {
            let mut held = self.buckets.remove(i);
            set_remove(&mut held.ids, id);
            self.buckets.insert(i, held);
            proof {
                before.lemma_slot(i as int);
                before.lemma_bucket_replaced(*self, i as int);
            }
        }
    }

    /// The identifiers filed under a value from `from` (included) to `to`
    /// (excluded), each once. The scan starts at the first value that does
    /// not come before `from` and ends at the first that does not come
    /// before `to`.
    pub fn scan(&self, from: &String, to: &String) -> (found: Vec<ObjectId>)
        requires
            self.wf(),
        ensures
            lists_ids(found@, span(self@, from@, to@)),
    {
        let place = self.locate(from);
        let start = place.0;
        proof {
            assert forall|j: int| start <= j < self.size() implies !precedes(
                #[trigger] self.key(j),
                from@,
            ) by {
                lemma_precedes_irreflexive(from@);
                if precedes(self.key(j), from@) {
                    if place.1 {
                        if j > start {
                            assert(precedes(self.key(start as int), self.key(j)));
                            lemma_precedes_transitive(from@, self.key(j), from@);
                        }
                    } else {
                        lemma_precedes_transitive(from@, self.key(j), from@);
                    }
                }
            }
        }
        let mut found: Vec<ObjectId> = Vec::new();
        let mut i: usize = start;
        while i < self.buckets.len() && comes_before(&self.buckets[i].value, to)
            invariant
                start <= i <= self.size(),
                self.wf(),
                distinct_ids(found@),
                forall|j: int| start <= j < i ==> precedes(#[trigger] self.key(j), to@),
                forall|id: Seq<u8>|
                    id_set(found@).contains(id) <==> exists|j: int|
                        start <= j < i && (#[trigger] self.ids(j)).contains(id),
            decreases self.size() - i,
        {
            let ghost held = found@;
            let ids = set_ids(&self.buckets[i].ids);
            proof {
                lemma_lists_ids(ids@, self.ids(i as int));
            }
            merge_ids(&mut found, &ids);
            proof {
                assert forall|id: Seq<u8>| id_set(found@).contains(id) <==> exists|j: int|
                    start <= j < i + 1 && (#[trigger] self.ids(j)).contains(id) by {
                    assert(id_set(found@).contains(id) <==> id_set(held).contains(id) || self.ids(
                        i as int,
                    ).contains(id));
                    if id_set(held).contains(id) {
                        let j = choose|j: int|
                            start <= j < i && (#[trigger] self.ids(j)).contains(id);
                        assert(start <= j < i + 1);
                    }
                    if exists|j: int| start <= j < i + 1 && (#[trigger] self.ids(j)).contains(id) {
                        let j = choose|j: int|
                            start <= j < i + 1 && (#[trigger] self.ids(j)).contains(id);
                        if j < i {
                            assert(id_set(held).contains(id));
                        }
                    }
                }
            }
            i += 1;
        }
        proof {
            let wanted = span(self@, from@, to@);
            assert forall|id: Seq<u8>| id_set(found@).contains(id) <==> wanted.contains(id) by {
                if id_set(found@).contains(id) {
                    let j = choose|j: int| start <= j < i && (#[trigger] self.ids(j)).contains(id);
                    self.lemma_slot(j);
                    assert(within(self.key(j), from@, to@));
                }
                if wanted.contains(id) {
                    let value = choose|value: Seq<char>|
                        self@.contains_key(value) && within(value, from@, to@)
                            && self@[value].contains(id);
                    let j = self.slot(value);
                    self.lemma_slot(j);
                    assert(self.key(j) == value);
                    if j > i {
                        assert(precedes(self.key(i as int), self.key(j)));
                        lemma_precedes_transitive(self.key(i as int), self.key(j), to@);
                    }
                    assert(start <= j < i);
                    assert(self.ids(j).contains(id));
                }
            }
            assert(id_set(found@) =~= wanted);
            lemma_lists_ids(found@, wanted);
        }
        found
    }
}

/// An index from a field and a value to the identifiers that hold the
/// value in that field, with the values of each field in order.
pub struct RangeIndex {
    multi_btree: TreeMap,
}

impl View for RangeIndex {
    type V = RangeView;

    closed spec fn view(&self) -> RangeView {
        Map::new(
            |field: Seq<char>| trees(self.multi_btree).contains_key(field),
            |field: Seq<char>| trees(self.multi_btree)[field]@,
        )
    }
}

impl RangeIndex {
    /// Whether the values of every field ascend.
    pub closed spec fn wf(self) -> bool {
        forall|field: Seq<char>|
            trees(self.multi_btree).contains_key(field) ==> (#[trigger] trees(
                self.multi_btree,
            )[field]).wf()
    }

    /// The index without fields.
    pub fn new() -> (index: Self)
        ensures
            index.wf(),
            index@ == RangeView::empty(),
    {
        let index = RangeIndex { multi_btree: trees_new() };
        assert(index@ =~= RangeView::empty());
        index
    }

    /// Files `object_id` under `value` of the field `field_name`.
    pub fn insert(&mut self, field_name: String, value: String, object_id: ObjectId)
        requires
            old(self).wf(),
        ensures
            final(self).wf(),
            final(self)@ == with_entry(old(self)@, field_name@, value@, object_id@),
    {
        let taken = trees_take(&mut self.multi_btree, field_name.as_str());
        let mut tree = match taken {
            Some(tree) => tree,
            None => ValueTree::new(),
        };
        tree.add(value, &object_id);
        trees_put(&mut self.multi_btree, field_name, tree);
        assert(self@ =~= with_entry(old(self)@, field_name@, value@, object_id@));
    }

    /// Withdraws `object_id` from `value` of the field `field_name`, where
    /// the field has a tree and the tree has that value.
    pub fn remove(&mut self, field_name: &String, value: &String, object_id: &ObjectId)
        requires
            old(self).wf(),
        ensures
            final(self).wf(),
            final(self)@ == without_entry(old(self)@, field_name@, value@, object_id@),
    {
        let taken = trees_take(&mut self.multi_btree, field_name.as_str());
        match taken {
            Some(tree) => {
                let mut tree = tree;
                tree.discard(value, object_id);
                trees_put(&mut self.multi_btree, field_name.clone(), tree);
            },
            None => {},
        }
        assert(self@ =~= without_entry(old(self)@, field_name@, value@, object_id@));
    }

    /// Deletes the tree of the field `field_name`.
    pub fn remove_tree(&mut self, field_name: &str)
        requires
            old(self).wf(),
        ensures
            final(self).wf(),
            final(self)@ == old(self)@.remove(field_name@),
    {
        let _ = trees_take(&mut self.multi_btree, field_name);
        assert(self@ =~= old(self)@.remove(field_name@));
    }

    /// The identifiers whose value of the field `field_name` lies from
    /// `from` (included) to `to` (excluded), each once, in no particular
    /// order; none where the field has no tree.
    pub fn range(&self, field_name: &str, from: String, to: String) -> (found: Vec<ObjectId>)
        requires
            self.wf(),
        ensures
            lists_ids(found@, span(tree_of(self@, field_name@), from@, to@)),
    {
        match trees_get(&self.multi_btree, field_name) {
            Some(guard) => {
                let tree = tree_value(&guard);
                tree.scan(&from, &to)
            },
            None => {
                let found: Vec<ObjectId> = Vec::new();
                assert(span(BucketView::empty(), from@, to@) =~= Set::<Seq<u8>>::empty());
                found
            },
        }
    }
}

} // verus!
