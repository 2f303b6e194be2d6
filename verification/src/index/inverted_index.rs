//! The full-text index: each token with the identifiers whose text holds it.

use super::{
    add_member, bucket, distinct_ids, drop_member, id_set, lemma_lists_ids,
    lemma_with_members_buckets, lemma_without_members_buckets, merge_ids, with_members,
    without_members, BucketView,
};
use crate::concurrent::{buckets, buckets_ids, buckets_new, lists_ids, BucketMap};
use crate::document::ObjectId;
use crate::text::{lowercase, split_words, texts, to_lower, tokenize, tokens, words};
use vstd::prelude::*;

verus! {

/// The identifiers filed under at least one of `keys`.
pub open spec fn hits(index: BucketView, keys: Seq<Seq<char>>) -> Set<Seq<u8>>
    decreases keys.len(),
{
    if keys.len() == 0 {
        Set::empty()
    } else {
        hits(index, keys.drop_last()).union(bucket(index, keys.last()))
    }
}

/// A query finds an identifier exactly when the bucket of one of its
/// tokens holds it.
pub proof fn lemma_hits(index: BucketView, keys: Seq<Seq<char>>, id: Seq<u8>)
    ensures
        hits(index, keys).contains(id) <==> exists|i: int|
            0 <= i < keys.len() && bucket(index, #[trigger] keys[i]).contains(id),
    decreases keys.len(),
{
    if keys.len() > 0 {
        let front = keys.drop_last();
        lemma_hits(index, front, id);
        if hits(index, front).contains(id) {
            let i = choose|i: int|
                0 <= i < front.len() && bucket(index, #[trigger] front[i]).contains(id);
            assert(keys[i] == front[i]);
        }
        if bucket(index, keys.last()).contains(id) {
            assert(keys[keys.len() - 1] == keys.last());
        }
        if exists|i: int| 0 <= i < keys.len() && bucket(index, #[trigger] keys[i]).contains(id) {
            let i = choose|i: int|
                0 <= i < keys.len() && bucket(index, #[trigger] keys[i]).contains(id);
            if i < front.len() {
                assert(front[i] == keys[i]);
            }
        }
    }
}

/// Full-text lookup: after an identifier has been inserted with a text, a
/// query that shares a token with the text finds it; after it has been
/// removed with the same text, such a query finds it no more, unless
/// another token of the query still holds it.
pub proof fn lemma_full_text_lookup(
    index: BucketView,
    text: Seq<Seq<char>>,
    query: Seq<Seq<char>>,
    id: Seq<u8>,
    i: int,
    j: int,
)
    requires
        0 <= i < text.len(),
        0 <= j < query.len(),
        text[i] == query[j],
    ensures
        hits(with_members(index, text, id), query).contains(id),
        !bucket(without_members(with_members(index, text, id), text, id), query[j]).contains(id),
{
    let filled = with_members(index, text, id);
    lemma_with_members_buckets(index, text, id);
    assert(text.contains(query[j]));
    assert(bucket(filled, query[j]).contains(id));
    lemma_hits(filled, query, id);
    lemma_without_members_buckets(filled, text, id);
}

/// An index from a token, a word in lower case, to the identifiers whose
/// indexed text holds it.
pub struct InvertedIndex {
    index: BucketMap,
}

impl View for InvertedIndex {
    type V = BucketView;

    closed spec fn view(&self) -> BucketView {
        buckets(self.index)
    }
}

impl InvertedIndex {
    /// The index without tokens.
    pub fn new() -> (index: Self)
        ensures
            index@ == BucketView::empty(),
    {
        let index = InvertedIndex { index: buckets_new() };
        assert(index@ =~= BucketView::empty());
        index
    }

    /// Files `object_id` under each token of `content`.
    pub fn insert(&mut self, object_id: &ObjectId, content: &str)
        ensures
            final(self)@ == with_members(old(self)@, tokens(content@), object_id@),
    {
        let ghost before = self@;
        let ghost all = tokens(content@);
        let list = tokenize(content);
        let mut i: usize = 0;
        while i < list.len()
            invariant
                i <= list@.len(),
                texts(list@) == all,
                self@ == with_members(before, all.take(i as int), object_id@),
            decreases list@.len() - i,
        {
            let token = list[i].clone();
            proof {
                assert(texts(list@)[i as int] == list@[i as int]@);
                assert(all.take(i + 1).drop_last() =~= all.take(i as int));
            }
            add_member(&mut self.index, token, object_id);
            i += 1;
        }
        assert(all.take(all.len() as int) =~= all);
    }

    /// Withdraws `object_id` from each token of `content`.
    pub fn remove(&mut self, object_id: &ObjectId, content: &str)
        ensures
            final(self)@ == without_members(old(self)@, tokens(content@), object_id@),
    {
        let ghost before = self@;
        let ghost all = tokens(content@);
        let list = tokenize(content);
        let mut i: usize = 0;
        while i < list.len()
            invariant
                i <= list@.len(),
                texts(list@) == all,
                self@ == without_members(before, all.take(i as int), object_id@),
            decreases list@.len() - i,
        {
            proof {
                assert(texts(list@)[i as int] == list@[i as int]@);
                assert(all.take(i + 1).drop_last() =~= all.take(i as int));
            }
            drop_member(&mut self.index, list[i].as_str(), object_id);
            i += 1;
        }
        assert(all.take(all.len() as int) =~= all);
    }

    /// The identifiers filed under at least one token of `text`, each
    /// once, in no particular order. A query of several words finds the
    /// union of what its words find, not the intersection.
    pub fn search(&self, text: &String) -> (found: Vec<ObjectId>)
        ensures
            lists_ids(found@, hits(self@, tokens(text@))),
    {
        let ghost all = tokens(text@);
        let list = split_words(text.as_str());
        let mut collector: Vec<ObjectId> = Vec::new();
        let mut i: usize = 0;
        assert(id_set(collector@) =~= hits(self@, all.take(0)));
        while i < list.len()
            invariant
                i <= list@.len(),
                texts(list@) == words(text@),
                all == tokens(text@),
                distinct_ids(collector@),
                id_set(collector@) == hits(self@, all.take(i as int)),
            decreases list@.len() - i,
        {
            let object_ids = self.inner_search(list[i].as_str());
            proof {
                assert(texts(list@)[i as int] == list@[i as int]@);
                assert(all[i as int] == lowercase(words(text@)[i as int]));
                assert(all.take(i + 1).drop_last() =~= all.take(i as int));
                lemma_lists_ids(object_ids@, bucket(self@, all[i as int]));
            }
            self.intersect(object_ids, &mut collector);
            i += 1;
        }
        proof {
            assert(all.take(all.len() as int) =~= all);
            lemma_lists_ids(collector@, hits(self@, all));
        }
        collector
    }

    /// Adds to `collector` each of `object_ids` that it does not hold.
    fn intersect(&self, object_ids: Vec<ObjectId>, collector: &mut Vec<ObjectId>)
        requires
            distinct_ids(old(collector)@),
        ensures
            distinct_ids(final(collector)@),
            id_set(final(collector)@) == id_set(old(collector)@).union(id_set(object_ids@)),
    {
        merge_ids(collector, &object_ids);
    }

    /// The identifiers filed under the lower-case form of `word`.
    fn inner_search(&self, word: &str) -> (ids: Vec<ObjectId>)
        ensures
            lists_ids(ids@, bucket(self@, lowercase(word@))),
    {
        let token = to_lower(word);
        match buckets_ids(&self.index, token.as_str()) {
            Some(ids) => ids,
            None => Vec::new(),
        }
    }
}

} // verus!
