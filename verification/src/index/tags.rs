//! The tag index: tags and views, each with the identifiers that carry it.

use super::{add_member, bucket, drop_member, with_member, without_member, BucketView};
use crate::concurrent::{
    buckets, buckets_ids, buckets_keys, buckets_new, buckets_take, lists_ids, lists_keys,
    BucketMap,
};
use crate::document::ObjectId;
use crate::text::strip_prefix;
use vstd::prelude::*;
use vstd::string::StringExecFns;

verus! {

/// What the stored key of every tag begins with.
pub open spec fn tag_prefix() -> Seq<char> {
    "__Tag__"@
}

/// What the stored key of every view begins with.
pub open spec fn view_prefix() -> Seq<char> {
    "__View__"@
}

/// The key under which `tag` is stored.
pub open spec fn tag_key(tag: Seq<char>) -> Seq<char> {
    tag_prefix() + tag
}

/// The key under which the view called `name` is stored.
pub open spec fn view_key(name: Seq<char>) -> Seq<char> {
    view_prefix() + name
}

/// The buckets of `stored` whose key begins with `prefix`, each under
/// what follows the prefix in its key.
pub open spec fn under(stored: BucketView, prefix: Seq<char>) -> BucketView {
    Map::new(
        |name: Seq<char>| stored.contains_key(prefix + name),
        |name: Seq<char>| stored[prefix + name],
    )
}

/// The mathematical content of a tag index: the tags, each with the
/// identifiers under it, and the views by name, each with the identifiers
/// under it.
pub struct TagView {
    pub tags: BucketView,
    pub views: BucketView,
}

/// Whether `entries` lists the buckets of `index`, each once.
pub open spec fn lists_buckets(entries: Seq<(String, Vec<ObjectId>)>, index: BucketView) -> bool {
    &&& forall|i: int, j: int| 0 <= i < j < entries.len() ==> entries[i].0@ != entries[j].0@
    &&& forall|i: int|
        0 <= i < entries.len() ==> index.contains_key(#[trigger] entries[i].0@) && lists_ids(
            entries[i].1@,
            index[entries[i].0@],
        )
    &&& forall|key: Seq<char>|
        index.contains_key(key) ==> exists|i: int|
            0 <= i < entries.len() && #[trigger] entries[i].0@ == key
}

/// Whether one of the first `count` of `keys` is `key`.
spec fn among(keys: Seq<String>, count: int, key: Seq<char>) -> bool {
    exists|j: int| 0 <= j < count && #[trigger] keys[j]@ == key
}

/// Whether one of `entries` carries the name that follows `prefix` in
/// `key`.
spec fn named(entries: Seq<(String, Vec<ObjectId>)>, prefix: Seq<char>, key: Seq<char>)
    -> bool {
    exists|e: int| 0 <= e < entries.len() && prefix + (#[trigger] entries[e]).0@ == key
}

/// What follows a prefix is fixed by the whole.
pub proof fn lemma_prefix_cancels(prefix: Seq<char>, a: Seq<char>, b: Seq<char>)
    requires
        prefix + a == prefix + b,
    ensures
        a == b,
{
    assert(a =~= (prefix + a).subrange(prefix.len() as int, (prefix + a).len() as int));
    assert(b =~= (prefix + b).subrange(prefix.len() as int, (prefix + b).len() as int));
}

/// A string begins with the prefix it was built on.
pub proof fn lemma_begins_with(prefix: Seq<char>, name: Seq<char>)
    ensures
        prefix.is_prefix_of(prefix + name),
{
    assert((prefix + name).subrange(0, prefix.len() as int) =~= prefix);
}

/// Different tags have different keys, and so have different views.
pub proof fn lemma_key_injective(a: Seq<char>, b: Seq<char>)
    ensures
        tag_key(a) == tag_key(b) ==> a == b,
        view_key(a) == view_key(b) ==> a == b,
{
    if tag_key(a) == tag_key(b) {
        lemma_prefix_cancels(tag_prefix(), a, b);
    }
    if view_key(a) == view_key(b) {
        lemma_prefix_cancels(view_prefix(), a, b);
    }
}

/// No key of a view begins as the keys of tags do, and no key of a tag
/// begins as the keys of views do.
pub proof fn lemma_prefixes_apart(name: Seq<char>)
    ensures
        !tag_prefix().is_prefix_of(view_key(name)),
        !view_prefix().is_prefix_of(tag_key(name)),
{
    reveal_strlit("__Tag__");
    reveal_strlit("__View__");
    assert(tag_prefix()[2] == 'T');
    assert(view_prefix()[2] == 'V');
    assert(view_key(name)[2] == 'V');
    assert(tag_key(name)[2] == 'T');
    if tag_prefix().is_prefix_of(view_key(name)) {
        assert(view_key(name).subrange(0, tag_prefix().len() as int)[2] == 'V');
    }
    if view_prefix().is_prefix_of(tag_key(name)) {
        assert(tag_key(name).subrange(0, view_prefix().len() as int)[2] == 'T');
    }
}

/// A tag and a view never share a key, whatever they are called.
pub proof fn lemma_keys_apart(tag: Seq<char>, name: Seq<char>)
    ensures
        tag_key(tag) != view_key(name),
{
    lemma_prefixes_apart(name);
    lemma_begins_with(tag_prefix(), tag);
}

/// What is done to the bucket of a key shows, among the buckets of the
/// key's prefix, as done to the bucket of what follows the prefix.
pub proof fn lemma_same_prefix(stored: BucketView, prefix: Seq<char>, name: Seq<char>, id: Seq<u8>)
    ensures
        under(with_member(stored, prefix + name, id), prefix) == with_member(
            under(stored, prefix),
            name,
            id,
        ),
        under(without_member(stored, prefix + name, id), prefix) == without_member(
            under(stored, prefix),
            name,
            id,
        ),
        under(stored.remove(prefix + name), prefix) == under(stored, prefix).remove(name),
{
    assert forall|other: Seq<char>| other != name implies prefix + other != prefix + name by {
        if prefix + other == prefix + name {
            lemma_prefix_cancels(prefix, other, name);
        }
    }
    assert(under(with_member(stored, prefix + name, id), prefix) =~= with_member(
        under(stored, prefix),
        name,
        id,
    ));
    assert(under(without_member(stored, prefix + name, id), prefix) =~= without_member(
        under(stored, prefix),
        name,
        id,
    ));
    assert(under(stored.remove(prefix + name), prefix) =~= under(stored, prefix).remove(name));
}

/// What is done to the bucket of a key leaves the buckets of every prefix
/// that the key does not begin with as they were.
pub proof fn lemma_other_prefix(stored: BucketView, prefix: Seq<char>, key: Seq<char>, id: Seq<u8>)
    requires
        !prefix.is_prefix_of(key),
    ensures
        under(with_member(stored, key, id), prefix) == under(stored, prefix),
        under(without_member(stored, key, id), prefix) == under(stored, prefix),
        under(stored.remove(key), prefix) == under(stored, prefix),
{
    assert forall|name: Seq<char>| prefix + name != key by {
        lemma_begins_with(prefix, name);
    }
    assert(under(with_member(stored, key, id), prefix) =~= under(stored, prefix));
    assert(under(without_member(stored, key, id), prefix) =~= under(stored, prefix));
    assert(under(stored.remove(key), prefix) =~= under(stored, prefix));
}

/// A many-to-many index from a tag, or a view, to the identifiers under it.
/// Tags and views share one map. The key of a tag is the tag behind one
/// prefix, the key of a view is its name behind another, so that no tag
/// and no view share a key.
pub struct TagIndex {
    tags: BucketMap,
}

impl View for TagIndex {
    type V = TagView;

    closed spec fn view(&self) -> TagView {
        TagView {
            tags: under(buckets(self.tags), tag_prefix()),
            views: under(buckets(self.tags), view_prefix()),
        }
    }
}

impl TagIndex {
    /// The index without tags and views.
    pub fn new() -> (index: Self)
        ensures
            index@.tags == BucketView::empty(),
            index@.views == BucketView::empty(),
    {
        let index = TagIndex { tags: buckets_new() };
        assert(index@.tags =~= BucketView::empty());
        assert(index@.views =~= BucketView::empty());
        index
    }

    /// Files `object_id` under `tag`. The views stay as they are.
    pub fn insert(&mut self, tag: String, object_id: ObjectId)
        ensures
            final(self)@.tags == with_member(old(self)@.tags, tag@, object_id@),
            final(self)@.views == old(self)@.views,
    {
        let key = self.tag_key_maker(tag.as_str());
        proof {
            lemma_same_prefix(buckets(self.tags), tag_prefix(), tag@, object_id@);
            lemma_prefixes_apart(tag@);
            lemma_other_prefix(buckets(self.tags), view_prefix(), tag_key(tag@), object_id@);
        }
        add_member(&mut self.tags, key, &object_id);
    }

    /// Files `object_id` under the view called `view_name`. The tags stay
    /// as they are.
    pub fn insert_view(&mut self, view_name: &str, object_id: ObjectId)
        ensures
            final(self)@.views == with_member(old(self)@.views, view_name@, object_id@),
            final(self)@.tags == old(self)@.tags,
    {
        let key = self.view_key_maker(view_name);
        proof {
            lemma_same_prefix(buckets(self.tags), view_prefix(), view_name@, object_id@);
            lemma_prefixes_apart(view_name@);
            lemma_other_prefix(buckets(self.tags), tag_prefix(), view_key(view_name@), object_id@);
        }
        add_member(&mut self.tags, key, &object_id);
    }

    /// Withdraws `object_id` from `tag`. The views stay as they are.
    pub fn remove(&mut self, tag: &String, object_id: &ObjectId)
        ensures
            final(self)@.tags == without_member(old(self)@.tags, tag@, object_id@),
            final(self)@.views == old(self)@.views,
    {
        let key = self.tag_key_maker(tag.as_str());
        proof {
            lemma_same_prefix(buckets(self.tags), tag_prefix(), tag@, object_id@);
            lemma_prefixes_apart(tag@);
            lemma_other_prefix(buckets(self.tags), view_prefix(), tag_key(tag@), object_id@);
        }
        drop_member(&mut self.tags, key.as_str(), object_id);
    }

    /// Withdraws `object_id` from the view called `view_name`. The tags
    /// stay as they are.
    pub fn remove_from_view(&mut self, view_name: &str, object_id: &ObjectId)
        ensures
            final(self)@.views == without_member(old(self)@.views, view_name@, object_id@),
            final(self)@.tags == old(self)@.tags,
    {
        let key = self.view_key_maker(view_name);
        proof {
            lemma_same_prefix(buckets(self.tags), view_prefix(), view_name@, object_id@);
            lemma_prefixes_apart(view_name@);
            lemma_other_prefix(buckets(self.tags), tag_prefix(), view_key(view_name@), object_id@);
        }
        drop_member(&mut self.tags, key.as_str(), object_id);
    }

    /// Deletes the bucket of `tag`. The views stay as they are.
    pub fn remove_tag(&mut self, tag: &str)
        ensures
            final(self)@.tags == old(self)@.tags.remove(tag@),
            final(self)@.views == old(self)@.views,
    {
        let key = self.tag_key_maker(tag);
        proof {
            lemma_same_prefix(buckets(self.tags), tag_prefix(), tag@, Seq::empty());
            lemma_prefixes_apart(tag@);
            lemma_other_prefix(buckets(self.tags), view_prefix(), tag_key(tag@), Seq::empty());
        }
        let _ = buckets_take(&mut self.tags, key.as_str());
    }

    /// Deletes the bucket of the view called `view_name`. The tags stay as
    /// they are.
    pub fn remove_view(&mut self, view_name: &str)
        ensures
            final(self)@.views == old(self)@.views.remove(view_name@),
            final(self)@.tags == old(self)@.tags,
    {
        let key = self.view_key_maker(view_name);
        proof {
            lemma_same_prefix(buckets(self.tags), view_prefix(), view_name@, Seq::empty());
            lemma_prefixes_apart(view_name@);
            lemma_other_prefix(buckets(self.tags), tag_prefix(), view_key(view_name@), Seq::empty());
        }
        let _ = buckets_take(&mut self.tags, key.as_str());
    }

    /// The identifiers under `tag`, in no particular order.
    pub fn lookup(&self, tag: &str) -> (ids: Option<Vec<ObjectId>>)
        ensures
            ids is Some <==> self@.tags.contains_key(tag@),
            ids is Some ==> lists_ids(ids->0@, self@.tags[tag@]),
    {
        let key = self.tag_key_maker(tag);
        buckets_ids(&self.tags, key.as_str())
    }

    /// The identifiers under the view called `view_name`, in no particular
    /// order.
    pub fn lookup_view(&self, view_name: &str) -> (ids: Option<Vec<ObjectId>>)
        ensures
            ids is Some <==> self@.views.contains_key(view_name@),
            ids is Some ==> lists_ids(ids->0@, self@.views[view_name@]),
    {
        let key = self.view_key_maker(view_name);
        buckets_ids(&self.tags, key.as_str())
    }

    /// The tags at the time of the call, each with its identifiers, in no
    /// particular order.
    pub fn iter(&self) -> (entries: Vec<(String, Vec<ObjectId>)>)
        ensures
            lists_buckets(entries@, self@.tags),
    {
        self.list_under("__Tag__")
    }

    /// The views at the time of the call by name, each with its
    /// identifiers, in no particular order.
    pub fn iter_views(&self) -> (entries: Vec<(String, Vec<ObjectId>)>)
        ensures
            lists_buckets(entries@, self@.views),
    {
        self.list_under("__View__")
    }

    /// The buckets whose key begins with `prefix`, each under what follows
    /// the prefix in its key.
    fn list_under(&self, prefix: &str) -> (entries: Vec<(String, Vec<ObjectId>)>)
        ensures
            lists_buckets(entries@, under(buckets(self.tags), prefix@)),
    {
        let keys = buckets_keys(&self.tags);
        let ghost stored = buckets(self.tags);
        let mut entries: Vec<(String, Vec<ObjectId>)> = Vec::new();
        let mut i: usize = 0;
        while i < keys.len()
            invariant
                i <= keys@.len(),
                stored == buckets(self.tags),
                lists_keys(keys@, stored.dom()),
                forall|a: int, b: int|
                    0 <= a < b < entries@.len() ==> entries@[a].0@ != entries@[b].0@,
                forall|e: int|
                    0 <= e < entries@.len() ==> stored.contains_key(
                        prefix@ + (#[trigger] entries@[e]).0@,
                    ) && lists_ids(entries@[e].1@, stored[prefix@ + entries@[e].0@]),
                forall|e: int|
                    0 <= e < entries@.len() ==> among(
                        keys@,
                        i as int,
                        prefix@ + (#[trigger] entries@[e]).0@,
                    ),
                forall|j: int|
                    0 <= j < i && prefix@.is_prefix_of(#[trigger] keys@[j]@) ==> named(
                        entries@,
                        prefix@,
                        keys@[j]@,
                    ),
            decreases keys@.len() - i,
        {
            let ghost listed = entries@;
            assert(stored.dom().contains(keys@[i as int]@));
            match strip_prefix(keys[i].as_str(), prefix) {
                Some(name) => {
                    let ids = match buckets_ids(&self.tags, keys[i].as_str()) {
                        Some(ids) => ids,
                        None => Vec::new(),
                    };
                    entries.push((name, ids));
                    proof {
                        let last = listed.len() as int;
                        assert(entries@[last].0@ == name@);
                        assert forall|a: int, b: int|
                            0 <= a < b < entries@.len() implies entries@[a].0@
                            != entries@[b].0@ by {
                            if b == last {
                                assert(entries@[a] == listed[a]);
                                assert(among(keys@, i as int, prefix@ + listed[a].0@));
                                let j = choose|j: int|
                                    0 <= j < i && #[trigger] keys@[j]@ == prefix@ + listed[a].0@;
                                assert(keys@[j]@ != keys@[i as int]@);
                            } else {
                                assert(entries@[a] == listed[a] && entries@[b] == listed[b]);
                            }
                        }
                        assert forall|e: int| 0 <= e < entries@.len() implies among(
                            keys@,
                            i + 1,
                            prefix@ + (#[trigger] entries@[e]).0@,
                        ) by {
                            if e < last {
                                assert(entries@[e] == listed[e]);
                                assert(among(keys@, i as int, prefix@ + listed[e].0@));
                                let j = choose|j: int|
                                    0 <= j < i && #[trigger] keys@[j]@ == prefix@ + listed[e].0@;
                                assert(0 <= j < i + 1);
                            } else {
                                assert(keys@[i as int]@ == prefix@ + entries@[e].0@);
                            }
                        }
                        assert forall|j: int|
                            0 <= j < i + 1 && prefix@.is_prefix_of(
                                #[trigger] keys@[j]@,
                            ) implies named(entries@, prefix@, keys@[j]@) by {
                            if j < i {
                                assert(named(listed, prefix@, keys@[j]@));
                                let e = choose|e: int|
                                    0 <= e < listed.len() && prefix@ + (#[trigger] listed[e]).0@
                                        == keys@[j]@;
                                assert(entries@[e] == listed[e]);
                            } else {
                                assert(prefix@ + entries@[last].0@ == keys@[j]@);
                            }
                        }
                    }
                },
                None => {
                    proof {
                        assert forall|e: int| 0 <= e < entries@.len() implies among(
                            keys@,
                            i + 1,
                            prefix@ + (#[trigger] entries@[e]).0@,
                        ) by {
                            assert(among(keys@, i as int, prefix@ + entries@[e].0@));
                            let j = choose|j: int|
                                0 <= j < i && #[trigger] keys@[j]@ == prefix@ + entries@[e].0@;
                            assert(0 <= j < i + 1);
                        }
                    }
                },
            }
            i += 1;
        }
        proof {
            let wanted = under(stored, prefix@);
            assert forall|name: Seq<char>| wanted.contains_key(name) implies exists|e: int|
                0 <= e < entries@.len() && #[trigger] entries@[e].0@ == name by {
                let j = choose|j: int| 0 <= j < keys@.len() && #[trigger] keys@[j]@ == prefix@ + name;
                lemma_begins_with(prefix@, name);
                assert(named(entries@, prefix@, keys@[j]@));
                let e = choose|e: int|
                    0 <= e < entries@.len() && prefix@ + (#[trigger] entries@[e]).0@ == keys@[j]@;
                lemma_prefix_cancels(prefix@, entries@[e].0@, name);
            }
        }
        entries
    }

    /// The stored key of `tag`.
    fn tag_key_maker(&self, tag: &str) -> (key: String)
        ensures
            key@ == tag_key(tag@),
    {
        String::from_str("__Tag__").concat(tag)
    }

    /// The stored key of the view called `name`.
    fn view_key_maker(&self, name: &str) -> (key: String)
        ensures
            key@ == view_key(name@),
    {
        String::from_str("__View__").concat(name)
    }
}

/// Filing an identifier under a tag a second time changes nothing: the
/// tag's bucket holds what it held after the first time.
pub proof fn lemma_tag_insert_idempotent(index: BucketView, tag: Seq<char>, id: Seq<u8>)
    ensures
        with_member(with_member(index, tag, id), tag, id) == with_member(index, tag, id),
        bucket(with_member(index, tag, id), tag).contains(id),
{
    super::lemma_with_member_idempotent(index, tag, id);
}

} // verus!
