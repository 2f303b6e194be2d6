//! The document store: the primary table and the four indices, kept in
//! step by one insert and one removal protocol.

use super::config::{initial, Config, ConfigView};
use super::error::Error;
use super::indexer::{answers, fields_of, Entries, IndexType, SyncIndexer};
use crate::concurrent::{
    lists_ids, record_value, records, records_ids, records_insert, records_new, records_ref,
    records_remove, RecordMap,
};
use crate::document::{
    field_value, has_field, with_field, Document, DocumentView, ObjectID, ObjectId, Value,
    ValueView,
};
use crate::encoding::{canonical_text, generate, rendering};
use crate::index::error::IndexError;
use crate::index::hash::{claimed_by_other, ClaimView, HashIndex};
use crate::index::inverted_index::InvertedIndex;
use crate::index::range::{
    lemma_without_entry_bucket, tree_of, with_entry, without_entry, RangeIndex, RangeView,
};
use crate::index::tags::TagIndex;
use crate::index::{
    bucket, lemma_without_members_buckets, with_member, with_members, without_members,
    BucketView,
};
use crate::text::{texts, tokens};
use vstd::prelude::*;

verus! {

/// The mathematical content of a store: the primary table and the content
/// of each index.
pub struct StoreState {
    pub documents: Map<Seq<u8>, DocumentView>,
    pub unique: ClaimView,
    pub tags: BucketView,
    pub views: BucketView,
    pub ranges: RangeView,
    pub inverted: BucketView,
}

/// Whether `entries` lists the documents of `table` with their
/// identifiers, each once.
pub open spec fn lists_records(
    entries: Seq<(ObjectId, Document)>,
    table: Map<Seq<u8>, DocumentView>,
) -> bool {
    &&& forall|i: int, j: int| 0 <= i < j < entries.len() ==> entries[i].0@ != entries[j].0@
    &&& forall|i: int|
        0 <= i < entries.len() ==> table.contains_key(#[trigger] entries[i].0@)
            && table[entries[i].0@] == entries[i].1@
    &&& forall|id: Seq<u8>|
        table.contains_key(id) ==> exists|i: int|
            0 <= i < entries.len() && #[trigger] entries[i].0@ == id
}

/// The store that holds nothing.
pub open spec fn empty_store() -> StoreState {
    StoreState {
        documents: Map::empty(),
        unique: Map::empty(),
        tags: Map::empty(),
        views: Map::empty(),
        ranges: Map::empty(),
        inverted: Map::empty(),
    }
}

/// `unique` after `id` has claimed each of `keys`.
pub open spec fn with_claims(unique: ClaimView, keys: Seq<Seq<char>>, id: Seq<u8>) -> ClaimView
    decreases keys.len(),
{
    if keys.len() == 0 {
        unique
    } else {
        with_claims(unique, keys.drop_last(), id).insert(keys.last(), id)
    }
}

/// Whether another identifier than `id` claims the canonical text of the
/// value that `document` has in one of `fields`.
pub open spec fn conflicting(
    unique: ClaimView,
    fields: Seq<Seq<char>>,
    document: DocumentView,
    id: Seq<u8>,
) -> bool {
    exists|i: int|
        0 <= i < fields.len() && field_value(document, #[trigger] fields[i]) is Some
            && claimed_by_other(unique, rendering(field_value(document, fields[i])->0), id)
}

/// `unique` after `id` has claimed the canonical text of the value that
/// `document` has in each of `fields`.
pub open spec fn claimed(
    unique: ClaimView,
    fields: Seq<Seq<char>>,
    document: DocumentView,
    id: Seq<u8>,
) -> ClaimView
    decreases fields.len(),
{
    if fields.len() == 0 {
        unique
    } else {
        let rest = claimed(unique, fields.drop_last(), document, id);
        match field_value(document, fields.last()) {
            Some(value) => rest.insert(rendering(value), id),
            None => rest,
        }
    }
}

/// `unique` after the canonical text of the value that `document` has in
/// each of `fields` has been given up.
pub open spec fn released(unique: ClaimView, fields: Seq<Seq<char>>, document: DocumentView)
    -> ClaimView
    decreases fields.len(),
{
    if fields.len() == 0 {
        unique
    } else {
        let rest = released(unique, fields.drop_last(), document);
        match field_value(document, fields.last()) {
            Some(value) => rest.remove(rendering(value)),
            None => rest,
        }
    }
}

/// `ranges` after `id` has been filed, for each of `fields` that
/// `document` has, under the canonical text of its value.
pub open spec fn ranged(
    ranges: RangeView,
    fields: Seq<Seq<char>>,
    document: DocumentView,
    id: Seq<u8>,
) -> RangeView
    decreases fields.len(),
{
    if fields.len() == 0 {
        ranges
    } else {
        let rest = ranged(ranges, fields.drop_last(), document, id);
        match field_value(document, fields.last()) {
            Some(value) => with_entry(rest, fields.last(), rendering(value), id),
            None => rest,
        }
    }
}

/// `ranges` after `id` has been withdrawn, for each of `fields` that
/// `document` has, from the canonical text of its value.
pub open spec fn unranged(
    ranges: RangeView,
    fields: Seq<Seq<char>>,
    document: DocumentView,
    id: Seq<u8>,
) -> RangeView
    decreases fields.len(),
{
    if fields.len() == 0 {
        ranges
    } else {
        let rest = unranged(ranges, fields.drop_last(), document, id);
        match field_value(document, fields.last()) {
            Some(value) => without_entry(rest, fields.last(), rendering(value), id),
            None => rest,
        }
    }
}

/// `inverted` after `id` has been filed under the tokens of each of
/// `fields` in which `document` has a text.
pub open spec fn worded(
    inverted: BucketView,
    fields: Seq<Seq<char>>,
    document: DocumentView,
    id: Seq<u8>,
) -> BucketView
    decreases fields.len(),
{
    if fields.len() == 0 {
        inverted
    } else {
        let rest = worded(inverted, fields.drop_last(), document, id);
        match field_value(document, fields.last()) {
            Some(ValueView::Text(text)) => with_members(rest, tokens(text), id),
            _ => rest,
        }
    }
}

/// `inverted` after `id` has been withdrawn from the tokens of each of
/// `fields` in which `document` has a text.
pub open spec fn unworded(
    inverted: BucketView,
    fields: Seq<Seq<char>>,
    document: DocumentView,
    id: Seq<u8>,
) -> BucketView
    decreases fields.len(),
{
    if fields.len() == 0 {
        inverted
    } else {
        let rest = unworded(inverted, fields.drop_last(), document, id);
        match field_value(document, fields.last()) {
            Some(ValueView::Text(text)) => without_members(rest, tokens(text), id),
            _ => rest,
        }
    }
}

/// `views` after `id` has been filed under each view of `names` whose
/// answer in `matched`, at the view's position, is yes.
pub open spec fn viewed(views: BucketView, names: Seq<Seq<char>>, matched: Seq<bool>, id: Seq<u8>)
    -> BucketView
    decreases names.len(),
{
    if names.len() == 0 {
        views
    } else {
        let rest = viewed(views, names.drop_last(), matched, id);
        if names.len() - 1 < matched.len() && matched[names.len() - 1] {
            with_member(rest, names.last(), id)
        } else {
            rest
        }
    }
}

/// The store after `document` has been inserted under `id`.
pub open spec fn inserted(
    store: StoreState,
    entries: Entries,
    names: Seq<Seq<char>>,
    document: DocumentView,
    id: Seq<u8>,
    matched: Seq<bool>,
) -> StoreState {
    StoreState {
        documents: store.documents.insert(id, document),
        unique: claimed(store.unique, fields_of(entries, IndexType::Unique), document, id),
        tags: with_members(store.tags, fields_of(entries, IndexType::Tag), id),
        views: viewed(store.views, names, matched, id),
        ranges: ranged(store.ranges, fields_of(entries, IndexType::Range), document, id),
        inverted: worded(store.inverted, fields_of(entries, IndexType::Inverted), document, id),
    }
}

/// The store after the document under `id` has been removed. Views keep
/// the identifier.
pub open spec fn removed(store: StoreState, entries: Entries, id: Seq<u8>) -> StoreState {
    if store.documents.contains_key(id) {
        let document = store.documents[id];
        StoreState {
            documents: store.documents.remove(id),
            unique: released(store.unique, fields_of(entries, IndexType::Unique), document),
            tags: without_members(store.tags, fields_of(entries, IndexType::Tag), id),
            views: store.views,
            ranges: unranged(store.ranges, fields_of(entries, IndexType::Range), document, id),
            inverted: unworded(
                store.inverted,
                fields_of(entries, IndexType::Inverted),
                document,
                id,
            ),
        }
    } else {
        store
    }
}

/// Whether `document` has an identifier field that holds something else
/// than an identifier.
pub open spec fn rejects(document: DocumentView) -> bool {
    field_value(document, ObjectID@) is Some && !(field_value(document, ObjectID@)->0 is Identifier)
}

/// Whether `id` is the identifier that `document` carries, if it carries
/// one.
pub open spec fn assigned(document: DocumentView, id: Seq<u8>) -> bool {
    field_value(document, ObjectID@) is Some ==> field_value(document, ObjectID@) == Some(
        ValueView::Identifier(id),
    )
}

/// `document` as it is stored under `id`: with `id` as its identifier
/// field, appended where the document carried none.
pub open spec fn resolved(document: DocumentView, id: Seq<u8>) -> DocumentView {
    with_field(document, ObjectID@, ValueView::Identifier(id))
}

/// Whether `after` and `result` are what the insert of `document` under
/// `id` makes of `before`: a refusal that changes nothing where another
/// identifier claims one of the document's unique values, and else the
/// store with the document in every index, and the document that `id` had.
pub open spec fn outcome(
    before: StoreState,
    after: StoreState,
    result: Result<Option<Document>, Error>,
    entries: Entries,
    names: Seq<Seq<char>>,
    document: DocumentView,
    id: Seq<u8>,
    matched: Seq<bool>,
) -> bool {
    if conflicting(before.unique, fields_of(entries, IndexType::Unique), document, id) {
        &&& result == Err::<Option<Document>, Error>(Error::IndexError(IndexError::Duplicate))
        &&& after == before
    } else {
        &&& result is Ok
        &&& after == inserted(before, entries, names, document, id, matched)
        &&& result->Ok_0 is Some <==> before.documents.contains_key(id)
        &&& result->Ok_0 is Some ==> result->Ok_0->0@ == before.documents[id]
    }
}

/// What `with_claims` holds: the claims that were there and, for `id`,
/// each of `keys`.
pub proof fn lemma_with_claims(unique: ClaimView, keys: Seq<Seq<char>>, id: Seq<u8>)
    ensures
        forall|key: Seq<char>| #[trigger]
            with_claims(unique, keys, id).contains_key(key) <==> unique.contains_key(key)
                || keys.contains(key),
        forall|key: Seq<char>|
            keys.contains(key) ==> #[trigger] with_claims(unique, keys, id)[key] == id,
        forall|key: Seq<char>|
            !keys.contains(key) ==> #[trigger] with_claims(unique, keys, id)[key] == unique[key],
    decreases keys.len(),
{
    if keys.len() > 0 {
        let front = keys.drop_last();
        let last = keys.last();
        lemma_with_claims(unique, front, id);
        assert forall|key: Seq<char>| keys.contains(key) <==> front.contains(key) || key
            == last by {
            if keys.contains(key) {
                let i = choose|i: int| 0 <= i < keys.len() && keys[i] == key;
                if i < front.len() {
                    assert(front[i] == key);
                }
            }
            if front.contains(key) {
                let i = choose|i: int| 0 <= i < front.len() && front[i] == key;
                assert(keys[i] == key);
            }
            assert(keys[keys.len() - 1] == last);
        }
        let all = with_claims(unique, keys, id);
        assert(all == with_claims(unique, front, id).insert(last, id));
        assert forall|key: Seq<char>| #[trigger]
            all.contains_key(key) <==> unique.contains_key(key) || keys.contains(key) by {
            assert(with_claims(unique, front, id).contains_key(key) <==> unique.contains_key(key)
                || front.contains(key));
        }
        assert forall|key: Seq<char>| keys.contains(key) implies #[trigger] all[key] == id by {
            if key != last {
                assert(with_claims(unique, front, id)[key] == id);
            }
        }
        assert forall|key: Seq<char>| !keys.contains(key) implies #[trigger] all[key]
            == unique[key] by {
            assert(with_claims(unique, front, id)[key] == unique[key]);
        }
    } else {
        assert forall|key: Seq<char>| !keys.contains(key) by {}
    }
}

/// After `id` has claimed the values of a document, each of them is
/// claimed by `id`.
pub proof fn lemma_claimed(
    unique: ClaimView,
    fields: Seq<Seq<char>>,
    document: DocumentView,
    id: Seq<u8>,
)
    ensures
        forall|i: int|
            0 <= i < fields.len() && field_value(document, #[trigger] fields[i]) is Some ==> {
                let key = rendering(field_value(document, fields[i])->0);
                claimed(unique, fields, document, id).contains_key(key) && claimed(
                    unique,
                    fields,
                    document,
                    id,
                )[key] == id
            },
    decreases fields.len(),
{
    if fields.len() > 0 {
        let front = fields.drop_last();
        lemma_claimed(unique, front, document, id);
        assert forall|i: int|
            0 <= i < fields.len() && field_value(document, #[trigger] fields[i]) is Some implies {
            let key = rendering(field_value(document, fields[i])->0);
            claimed(unique, fields, document, id).contains_key(key) && claimed(
                unique,
                fields,
                document,
                id,
            )[key] == id
        } by {
            if i < front.len() {
                assert(front[i] == fields[i]);
            }
        }
    }
}

/// No lost claims: where no other identifier claims a value of the
/// document, the insert is accepted whatever else the index holds, and
/// every claim that the index held is kept as it was.
pub proof fn lemma_claims_kept(
    unique: ClaimView,
    fields: Seq<Seq<char>>,
    document: DocumentView,
    id: Seq<u8>,
)
    requires
        !conflicting(unique, fields, document, id),
    ensures
        forall|key: Seq<char>| #[trigger]
            unique.contains_key(key) ==> claimed(unique, fields, document, id).contains_key(key)
                && claimed(unique, fields, document, id)[key] == unique[key],
    decreases fields.len(),
{
    if fields.len() > 0 {
        let front = fields.drop_last();
        assert forall|i: int| 0 <= i < front.len() implies !(field_value(
            document,
            #[trigger] front[i],
        ) is Some && claimed_by_other(unique, rendering(field_value(document, front[i])->0), id)) by {
            assert(front[i] == fields[i]);
        }
        lemma_claims_kept(unique, front, document, id);
        let rest = claimed(unique, front, document, id);
        let all = claimed(unique, fields, document, id);
        assert(fields[fields.len() - 1] == fields.last());
        assert forall|key: Seq<char>| #[trigger] unique.contains_key(key) implies all.contains_key(
            key,
        ) && all[key] == unique[key] by {
            assert(rest.contains_key(key) && rest[key] == unique[key]);
            if field_value(document, fields.last()) is Some {
                let claim = rendering(field_value(document, fields.last())->0);
                assert(!claimed_by_other(unique, claim, id));
            }
        }
    }
}

/// After the removal of a document, no bucket of the range index that
/// the document's values name holds its identifier, and no bucket holds
/// it that did not hold it before.
pub proof fn lemma_unranged(
    ranges: RangeView,
    fields: Seq<Seq<char>>,
    document: DocumentView,
    id: Seq<u8>,
)
    ensures
        forall|field: Seq<char>, value: Seq<char>|
            !bucket(tree_of(ranges, field), value).contains(id) ==> !(#[trigger] bucket(
                tree_of(unranged(ranges, fields, document, id), field),
                value,
            )).contains(id),
        forall|i: int|
            0 <= i < fields.len() && field_value(document, #[trigger] fields[i]) is Some
                ==> !bucket(
                tree_of(unranged(ranges, fields, document, id), fields[i]),
                rendering(field_value(document, fields[i])->0),
            ).contains(id),
    decreases fields.len(),
{
    if fields.len() > 0 {
        let front = fields.drop_last();
        let last = fields.last();
        lemma_unranged(ranges, front, document, id);
        let rest = unranged(ranges, front, document, id);
        let after = unranged(ranges, fields, document, id);
        assert forall|field: Seq<char>, value: Seq<char>|
            !bucket(tree_of(rest, field), value).contains(id) implies !(#[trigger] bucket(
            tree_of(after, field),
            value,
        )).contains(id) by {
            if field_value(document, last) is Some {
                lemma_without_entry_bucket(
                    rest,
                    last,
                    rendering(field_value(document, last)->0),
                    id,
                    field,
                    value,
                );
            }
        }
        assert forall|i: int|
            0 <= i < fields.len() && field_value(document, #[trigger] fields[i]) is Some
                implies !bucket(
            tree_of(after, fields[i]),
            rendering(field_value(document, fields[i])->0),
        ).contains(id) by {
            let value = rendering(field_value(document, fields[i])->0);
            if i < front.len() {
                assert(front[i] == fields[i]);
                assert(!bucket(tree_of(rest, fields[i]), value).contains(id));
            } else {
                lemma_without_entry_bucket(rest, last, value, id, last, value);
            }
        }
    }
}

/// Round trip: a document without an identifier field that was inserted
/// is found under the identifier it was given, as the document that was
/// sent with the identifier appended as its field.
pub proof fn lemma_round_trip(
    before: StoreState,
    after: StoreState,
    result: Result<Option<Document>, Error>,
    entries: Entries,
    names: Seq<Seq<char>>,
    document: DocumentView,
    id: Seq<u8>,
    matched: Seq<bool>,
)
    requires
        !has_field(document, ObjectID@),
        outcome(before, after, result, entries, names, resolved(document, id), id, matched),
        result is Ok,
    ensures
        after.documents.contains_key(id),
        after.documents[id] == document.push((ObjectID@, ValueView::Identifier(id))),
{
}

/// A document inserted under an identifier that the table does not hold,
/// with no unique value that another identifier claims, is accepted with
/// no earlier document to return; the table gains that one entry and every
/// other entry is as it was.
pub proof fn lemma_fresh_insert(
    before: StoreState,
    after: StoreState,
    result: Result<Option<Document>, Error>,
    entries: Entries,
    names: Seq<Seq<char>>,
    document: DocumentView,
    id: Seq<u8>,
    matched: Seq<bool>,
)
    requires
        outcome(before, after, result, entries, names, document, id, matched),
        !conflicting(before.unique, fields_of(entries, IndexType::Unique), document, id),
        !before.documents.contains_key(id),
    ensures
        result == Ok::<Option<Document>, Error>(None),
        after.documents == before.documents.insert(id, document),
        after.documents.dom() == before.documents.dom().insert(id),
        forall|other: Seq<u8>|
            before.documents.contains_key(other) ==> after.documents.contains_key(other)
                && after.documents[other] == before.documents[other],
{
    assert(after.documents.dom() =~= before.documents.dom().insert(id));
}

/// Uniqueness: after a document was inserted, the insert of a document
/// under another identifier that has the same value in a unique field is
/// refused as a duplicate, and leaves the store, all indices included, as
/// it was after the first insert.
pub proof fn lemma_duplicate_refused(
    before: StoreState,
    entries: Entries,
    names: Seq<Seq<char>>,
    first: DocumentView,
    first_id: Seq<u8>,
    first_matched: Seq<bool>,
    second: DocumentView,
    second_id: Seq<u8>,
    second_matched: Seq<bool>,
    field: Seq<char>,
    after: StoreState,
    result: Result<Option<Document>, Error>,
)
    requires
        first_id != second_id,
        fields_of(entries, IndexType::Unique).contains(field),
        field_value(first, field) is Some,
        field_value(second, field) == field_value(first, field),
        outcome(
            inserted(before, entries, names, first, first_id, first_matched),
            after,
            result,
            entries,
            names,
            second,
            second_id,
            second_matched,
        ),
    ensures
        result == Err::<Option<Document>, Error>(Error::IndexError(IndexError::Duplicate)),
        after == inserted(before, entries, names, first, first_id, first_matched),
{
    let fields = fields_of(entries, IndexType::Unique);
    let i = choose|i: int| 0 <= i < fields.len() && fields[i] == field;
    lemma_claimed(before.unique, fields, first, first_id);
    let middle = inserted(before, entries, names, first, first_id, first_matched);
    assert(field_value(second, fields[i]) is Some);
    assert(claimed_by_other(
        middle.unique,
        rendering(field_value(second, fields[i])->0),
        second_id,
    ));
}

/// Removal: after the removal of a document, nothing is found under its
/// identifier, no tag of the registry holds the identifier, and neither
/// does the bucket of the range index that a value of the document names.
/// The views are as they were.
pub proof fn lemma_removal_complete(store: StoreState, entries: Entries, id: Seq<u8>)
    requires
        store.documents.contains_key(id),
    ensures
        !removed(store, entries, id).documents.contains_key(id),
        removed(store, entries, id).views == store.views,
        forall|i: int|
            0 <= i < fields_of(entries, IndexType::Tag).len() ==> !bucket(
                removed(store, entries, id).tags,
                #[trigger] fields_of(entries, IndexType::Tag)[i],
            ).contains(id),
        forall|i: int|
            0 <= i < fields_of(entries, IndexType::Range).len() && field_value(
                store.documents[id],
                #[trigger] fields_of(entries, IndexType::Range)[i],
            ) is Some ==> !bucket(
                tree_of(
                    removed(store, entries, id).ranges,
                    fields_of(entries, IndexType::Range)[i],
                ),
                rendering(
                    field_value(store.documents[id], fields_of(entries, IndexType::Range)[i])->0,
                ),
            ).contains(id),
{
    let tags = fields_of(entries, IndexType::Tag);
    lemma_without_members_buckets(store.tags, tags, id);
    assert forall|i: int| 0 <= i < tags.len() implies !bucket(
        removed(store, entries, id).tags,
        #[trigger] tags[i],
    ).contains(id) by {
        assert(tags.contains(tags[i]));
    }
    lemma_unranged(store.ranges, fields_of(entries, IndexType::Range), store.documents[id], id);
}

/// Claims for `id` the canonical text of the value that `document` has in
/// each of `fields`, in order. Where another identifier holds one of
/// them, the claims made so far are given up again, last first, and
/// nothing else: the index is then as it was.
pub fn claim_all(index: &mut HashIndex, fields: &Vec<String>, document: &Document, id: &ObjectId)
    -> (accepted: bool)
    ensures
        accepted == !conflicting(old(index)@, texts(fields@), document@, id@),
        accepted ==> final(index)@ == claimed(old(index)@, texts(fields@), document@, id@),
        !accepted ==> final(index)@ == old(index)@,
{
    let ghost start = index@;
    let ghost names = texts(fields@);
    let mut written: Vec<String> = Vec::new();
    let mut i: usize = 0;
    while i < fields.len()
        invariant
            i <= fields@.len(),
            names == texts(fields@),
            start == old(index)@,
            index@ == claimed(start, names.take(i as int), document@, id@),
            index@ == with_claims(start, texts(written@), id@),
            forall|j: int|
                0 <= j < written@.len() ==> !start.contains_key(#[trigger] texts(written@)[j]),
            forall|a: int, b: int|
                0 <= a < b < written@.len() ==> texts(written@)[a] != texts(written@)[b],
            forall|j: int|
                0 <= j < i ==> !(field_value(document@, #[trigger] names[j]) is Some
                    && claimed_by_other(
                    start,
                    rendering(field_value(document@, names[j])->0),
                    id@,
                )),
        decreases fields@.len() - i,
    {
        let field = &fields[i];
        proof {
            assert(names.take(i + 1).drop_last() =~= names.take(i as int));
            assert(names[i as int] == field@);
            lemma_with_claims(start, texts(written@), id@);
        }
        match document.get(field.as_str()) {
            Some(value) => {
                let key = canonical_text(value);
                let ghost held = texts(written@);
                match index.lookup(&key) {
                    Some(owner) => {
                        if !owner.same(id) {
                            proof {
                                if held.contains(key@) {
                                    assert(index@[key@] == id@);
                                }
                                assert(claimed_by_other(start, key@, id@));
                            }
                            while written.len() > 0
                                invariant
                                    index@ == with_claims(start, texts(written@), id@),
                                    forall|j: int|
                                        0 <= j < written@.len() ==> !start.contains_key(
                                            #[trigger] texts(written@)[j],
                                        ),
                                    forall|a: int, b: int|
                                        0 <= a < b < written@.len() ==> texts(written@)[a]
                                            != texts(written@)[b],
                                decreases written@.len(),
                            {
                                let ghost claims = texts(written@);
                                let undone = written.pop().unwrap();
                                proof {
                                    assert(texts(written@) =~= claims.drop_last());
                                    assert(undone@ == claims.last());
                                    lemma_with_claims(start, claims.drop_last(), id@);
                                    if claims.drop_last().contains(undone@) {
                                        let j = choose|j: int|
                                            0 <= j < claims.drop_last().len()
                                                && claims.drop_last()[j] == undone@;
                                        assert(claims[j] != claims[claims.len() - 1]);
                                    }
                                    assert(!start.contains_key(claims[claims.len() - 1]));
                                }
                                index.remove(&undone);
                                assert(index@ =~= with_claims(start, texts(written@), id@));
                            }
                            proof {
                                assert(texts(written@).len() == 0);
                                assert(field_value(document@, names[i as int]) is Some);
                                assert(conflicting(start, names, document@, id@));
                            }
                            return false;
                        }
                        proof {
                            assert(index@.insert(key@, id@) =~= index@);
                            if start.contains_key(key@) && held.contains(key@) {
                                let j = choose|j: int| 0 <= j < held.len() && held[j] == key@;
                                assert(!start.contains_key(held[j]));
                            }
                        }
                    },
                    None => {
                        let _ = index.insert(key.clone(), *id);
                        written.push(key);
                        proof {
                            assert(texts(written@) =~= held.push(key@));
                            assert(held.push(key@).drop_last() =~= held);
                            assert forall|a: int, b: int|
                                0 <= a < b < written@.len() implies texts(written@)[a] != texts(
                                written@,
                            )[b] by {
                                if b == held.len() {
                                    assert(held.contains(held[a]));
                                }
                            }
                        }
                    },
                }
            },
            None => {},
        }
        i += 1;
    }
    proof {
        assert(names.take(names.len() as int) =~= names);
    }
    true
}

/// Gives up the canonical text of the value that `document` has in each
/// of `fields`.
pub fn release_all(index: &mut HashIndex, fields: &Vec<String>, document: &Document)
    ensures
        final(index)@ == released(old(index)@, texts(fields@), document@),
{
    let ghost start = index@;
    let ghost names = texts(fields@);
    let mut i: usize = 0;
    while i < fields.len()
        invariant
            i <= fields@.len(),
            names == texts(fields@),
            index@ == released(start, names.take(i as int), document@),
        decreases fields@.len() - i,
    {
        proof {
            assert(names.take(i + 1).drop_last() =~= names.take(i as int));
            assert(names[i as int] == fields@[i as int]@);
        }
        match document.get(fields[i].as_str()) {
            Some(value) => {
                let key = canonical_text(value);
                index.remove(&key);
            },
            None => {},
        }
        i += 1;
    }
    proof {
        assert(names.take(names.len() as int) =~= names);
    }
}

/// Files `id` under each of `tags`. The views stay as they are.
pub fn tag_all(index: &mut TagIndex, tags: &Vec<String>, id: &ObjectId)
    ensures
        final(index)@.tags == with_members(old(index)@.tags, texts(tags@), id@),
        final(index)@.views == old(index)@.views,
{
    let ghost start = index@.tags;
    let ghost others = index@.views;
    let ghost names = texts(tags@);
    let mut i: usize = 0;
    while i < tags.len()
        invariant
            i <= tags@.len(),
            names == texts(tags@),
            index@.views == others,
            index@.tags == with_members(start, names.take(i as int), id@),
        decreases tags@.len() - i,
    {
        proof {
            assert(names.take(i + 1).drop_last() =~= names.take(i as int));
            assert(names[i as int] == tags@[i as int]@);
        }
        index.insert(tags[i].clone(), *id);
        i += 1;
    }
    proof {
        assert(names.take(names.len() as int) =~= names);
    }
}

/// Withdraws `id` from each of `tags`. The views stay as they are.
pub fn untag_all(index: &mut TagIndex, tags: &Vec<String>, id: &ObjectId)
    ensures
        final(index)@.tags == without_members(old(index)@.tags, texts(tags@), id@),
        final(index)@.views == old(index)@.views,
{
    let ghost start = index@.tags;
    let ghost others = index@.views;
    let ghost names = texts(tags@);
    let mut i: usize = 0;
    while i < tags.len()
        invariant
            i <= tags@.len(),
            names == texts(tags@),
            index@.views == others,
            index@.tags == without_members(start, names.take(i as int), id@),
        decreases tags@.len() - i,
    {
        proof {
            assert(names.take(i + 1).drop_last() =~= names.take(i as int));
            assert(names[i as int] == tags@[i as int]@);
        }
        index.remove(&tags[i], id);
        i += 1;
    }
    proof {
        assert(names.take(names.len() as int) =~= names);
    }
}

/// Files `id`, for each of `fields` that `document` has, under the
/// canonical text of its value.
pub fn range_all(index: &mut RangeIndex, fields: &Vec<String>, document: &Document, id: &ObjectId)
    requires
        old(index).wf(),
    ensures
        final(index).wf(),
        final(index)@ == ranged(old(index)@, texts(fields@), document@, id@),
{
    let ghost start = index@;
    let ghost names = texts(fields@);
    let mut i: usize = 0;
    while i < fields.len()
        invariant
            i <= fields@.len(),
            names == texts(fields@),
            index.wf(),
            index@ == ranged(start, names.take(i as int), document@, id@),
        decreases fields@.len() - i,
    {
        proof {
            assert(names.take(i + 1).drop_last() =~= names.take(i as int));
            assert(names[i as int] == fields@[i as int]@);
        }
        match document.get(fields[i].as_str()) {
            Some(value) => {
                let key = canonical_text(value);
                index.insert(fields[i].clone(), key, *id);
            },
            None => {},
        }
        i += 1;
    }
    proof {
        assert(names.take(names.len() as int) =~= names);
    }
}

/// Withdraws `id`, for each of `fields` that `document` has, from the
/// canonical text of its value.
pub fn unrange_all(
    index: &mut RangeIndex,
    fields: &Vec<String>,
    document: &Document,
    id: &ObjectId,
)
    requires
        old(index).wf(),
    ensures
        final(index).wf(),
        final(index)@ == unranged(old(index)@, texts(fields@), document@, id@),
{
    let ghost start = index@;
    let ghost names = texts(fields@);
    let mut i: usize = 0;
    while i < fields.len()
        invariant
            i <= fields@.len(),
            names == texts(fields@),
            index.wf(),
            index@ == unranged(start, names.take(i as int), document@, id@),
        decreases fields@.len() - i,
    {
        proof {
            assert(names.take(i + 1).drop_last() =~= names.take(i as int));
            assert(names[i as int] == fields@[i as int]@);
        }
        match document.get(fields[i].as_str()) {
            Some(value) => {
                let key = canonical_text(value);
                index.remove(&fields[i], &key, id);
            },
            None => {},
        }
        i += 1;
    }
    proof {
        assert(names.take(names.len() as int) =~= names);
    }
}

/// Files `id` under the tokens of each of `fields` in which `document`
/// has a text.
pub fn word_all(
    index: &mut InvertedIndex,
    fields: &Vec<String>,
    document: &Document,
    id: &ObjectId,
)
    ensures
        final(index)@ == worded(old(index)@, texts(fields@), document@, id@),
{
    let ghost start = index@;
    let ghost names = texts(fields@);
    let mut i: usize = 0;
    while i < fields.len()
        invariant
            i <= fields@.len(),
            names == texts(fields@),
            index@ == worded(start, names.take(i as int), document@, id@),
        decreases fields@.len() - i,
    {
        proof {
            assert(names.take(i + 1).drop_last() =~= names.take(i as int));
            assert(names[i as int] == fields@[i as int]@);
        }
        match document.get(fields[i].as_str()) {
            Some(value) => {
                match value.as_str() {
                    Some(text) => {
                        index.insert(id, text);
                    },
                    None => {},
                }
            },
            None => {},
        }
        i += 1;
    }
    proof {
        assert(names.take(names.len() as int) =~= names);
    }
}

/// Withdraws `id` from the tokens of each of `fields` in which `document`
/// has a text.
pub fn unword_all(
    index: &mut InvertedIndex,
    fields: &Vec<String>,
    document: &Document,
    id: &ObjectId,
)
    ensures
        final(index)@ == unworded(old(index)@, texts(fields@), document@, id@),
{
    let ghost start = index@;
    let ghost names = texts(fields@);
    let mut i: usize = 0;
    while i < fields.len()
        invariant
            i <= fields@.len(),
            names == texts(fields@),
            index@ == unworded(start, names.take(i as int), document@, id@),
        decreases fields@.len() - i,
    {
        proof {
            assert(names.take(i + 1).drop_last() =~= names.take(i as int));
            assert(names[i as int] == fields@[i as int]@);
        }
        match document.get(fields[i].as_str()) {
            Some(value) => {
                match value.as_str() {
                    Some(text) => {
                        index.remove(id, text);
                    },
                    None => {},
                }
            },
            None => {},
        }
        i += 1;
    }
    proof {
        assert(names.take(names.len() as int) =~= names);
    }
}

/// Files `id` under each view of `views` whose answer in `matched`, at
/// the view's position, is yes. The tags stay as they are.
pub fn view_all(index: &mut TagIndex, views: &Vec<String>, matched: &Vec<bool>, id: &ObjectId)
    ensures
        final(index)@.views == viewed(old(index)@.views, texts(views@), matched@, id@),
        final(index)@.tags == old(index)@.tags,
{
    let ghost start = index@.views;
    let ghost others = index@.tags;
    let ghost names = texts(views@);
    let mut i: usize = 0;
    while i < views.len()
        invariant
            i <= views@.len(),
            names == texts(views@),
            index@.tags == others,
            index@.views == viewed(start, names.take(i as int), matched@, id@),
        decreases views@.len() - i,
    {
        proof {
            assert(names.take(i + 1).drop_last() =~= names.take(i as int));
            assert(names[i as int] == views@[i as int]@);
        }
        if i < matched.len() && matched[i] {
            index.insert_view(views[i].as_str(), *id);
        }
        i += 1;
    }
    proof {
        assert(names.take(names.len() as int) =~= names);
    }
}

/// A store of documents with its indices and its registry.
pub struct DataStore<F> {
    data_store: RecordMap,
    hash_index: HashIndex,
    tag_index: TagIndex,
    range_index: RangeIndex,
    inverted_index: InvertedIndex,
    indexer: SyncIndexer<F>,
    cfg: Config,
}

impl<F: Fn(&Document) -> bool> View for DataStore<F> {
    type V = StoreState;

    closed spec fn view(&self) -> StoreState {
        StoreState {
            documents: records(self.data_store),
            unique: self.hash_index@,
            tags: self.tag_index@.tags,
            views: self.tag_index@.views,
            ranges: self.range_index@,
            inverted: self.inverted_index@,
        }
    }
}

impl<F: Fn(&Document) -> bool> DataStore<F> {
    /// The registry of the store.
    pub closed spec fn registry(self) -> SyncIndexer<F> {
        self.indexer
    }

    /// The configuration of the store.
    pub closed spec fn config(self) -> ConfigView {
        self.cfg@
    }

    /// Whether the registry and the range index are well formed.
    pub closed spec fn wf(self) -> bool {
        self.indexer.wf() && self.range_index.wf()
    }

    /// The store that holds nothing, with an empty registry.
    pub fn new() -> (store: Self)
        ensures
            store.wf(),
            store@ == empty_store(),
            store.registry().entries() == Entries::empty(),
            store.registry().view_names() == Seq::<Seq<char>>::empty(),
            store.config() == initial(),
    {
        let store = DataStore {
            data_store: records_new(),
            hash_index: HashIndex::new(),
            tag_index: TagIndex::new(),
            range_index: RangeIndex::new(),
            inverted_index: InvertedIndex::new(),
            indexer: SyncIndexer::new(),
            cfg: Config::new(),
        };
        assert(store@.documents =~= empty_store().documents);
        store
    }

    /// The same store with the registry `idx`.
    pub fn with_indexer(self, idx: SyncIndexer<F>) -> (store: Self)
        requires
            self.wf(),
            idx.wf(),
        ensures
            store.wf(),
            store@ == self@,
            store.registry() == idx,
            store.config() == self.config(),
    {
        let mut store = self;
        store.indexer = idx;
        store
    }

    /// The same store with the configuration `cfg`.
    pub fn with_config(self, cfg: Config) -> (store: Self)
        requires
            self.wf(),
        ensures
            store.wf(),
            store@ == self@,
            store.registry() == self.registry(),
            store.config() == cfg@,
    {
        let mut store = self;
        store.cfg = cfg;
        store
    }

    /// Gives `field_name` the kind `index_type`. A field that has a kind is
    /// refused. Documents that the store holds are not indexed anew.
    pub fn define_index(&mut self, field_name: &str, index_type: IndexType) -> (result: Result<
        (),
        IndexError,
    >)
        requires
            old(self).wf(),
        ensures
            final(self).wf(),
            final(self)@ == old(self)@,
            final(self).config() == old(self).config(),
            final(self).registry().view_names() == old(self).registry().view_names(),
            final(self).registry().filters() == old(self).registry().filters(),
            result is Err <==> super::indexer::defines(old(self).registry().entries(), field_name@),
            result is Err ==> result->Err_0 == IndexError::Duplicate && final(self).registry().entries() == old(self).registry().entries(),
            result is Ok ==> final(self).registry().entries() == old(self).registry().entries().push((field_name@, index_type)),
    {
        self.indexer.define_index(field_name, index_type)
    }

    /// Takes the kind of `field_name` away. What the indices hold stays.
    pub fn remove_index(&mut self, field_name: &String, index_type: IndexType)
        requires
            old(self).wf(),
        ensures
            final(self).wf(),
            final(self)@ == old(self)@,
            final(self).config() == old(self).config(),
            final(self).registry().view_names() == old(self).registry().view_names(),
            final(self).registry().filters() == old(self).registry().filters(),
            final(self).registry().entries() == super::indexer::without_field(
                old(self).registry().entries(),
                field_name@,
            ),
    {
        self.indexer.remove_index(field_name, index_type);
    }

    /// Registers `filter` as the predicate of the view called `name`.
    pub fn define_view(&mut self, name: &str, filter: F)
        requires
            old(self).wf(),
            forall|document: Document| call_requires(filter, (&document,)),
        ensures
            final(self).wf(),
            final(self)@ == old(self)@,
            final(self).config() == old(self).config(),
            final(self).registry().entries() == old(self).registry().entries(),
            super::indexer::names_hold(old(self).registry().view_names(), name@) ==> final(self).registry().view_names() == old(self).registry().view_names() && final(self).registry().filters() == old(self).registry().filters().update(
                super::indexer::name_at(old(self).registry().view_names(), name@),
                filter,
            ),
            !super::indexer::names_hold(old(self).registry().view_names(), name@) ==> final(self).registry().view_names() == old(self).registry().view_names().push(name@) && final(self).registry().filters() == old(self).registry().filters().push(filter),
    {
        self.indexer.define_view(name, filter);
    }

    /// Inserts `doc`. A document without an identifier field is given a
    /// fresh identifier, appended as that field; one whose identifier
    /// field holds something else than an identifier is refused. Then the
    /// predicate of each view is asked, and the document goes the way of
    /// `insert_resolved`.
    pub fn insert(&mut self, doc: Document) -> (result: Result<Option<Document>, Error>)
        requires
            old(self).wf(),
        ensures
            final(self).wf(),
            final(self).registry() == old(self).registry(),
            final(self).config() == old(self).config(),
            rejects(doc@) ==> result == Err::<Option<Document>, Error>(Error::InvalidObjectId)
                && final(self)@ == old(self)@,
            !rejects(doc@) ==> exists|id: ObjectId, sent: Document, matched: Seq<bool>|
                #![trigger answers(old(self).registry().filters(), sent, matched), id@]
                {
                    &&& id@.len() == 12
                    &&& assigned(doc@, id@)
                    &&& sent@ == resolved(doc@, id@)
                    &&& answers(old(self).registry().filters(), sent, matched)
                    &&& outcome(
                        old(self)@,
                        final(self)@,
                        result,
                        old(self).registry().entries(),
                        old(self).registry().view_names(),
                        sent@,
                        id@,
                        matched,
                    )
                },
    {
        let mut doc = doc;
        let carried: Option<Option<ObjectId>> = match doc.get(ObjectID) {
            Some(value) => Some(value.as_object_id()),
            None => None,
        };
        let id = match carried {
            Some(Some(id)) => {
                proof {
                    crate::document::lemma_position(doc@, ObjectID@);
                    assert(doc@ =~= resolved(doc@, id@));
                }
                id
            },
            Some(None) => {
                return Err(Error::InvalidObjectId);
            },
            None => {
                let id = generate();
                let _ = doc.insert(ObjectID.to_owned(), Value::Identifier(id));
                id
            },
        };
        let matched = self.indexer.evaluate(&doc);
        let ghost sent = doc;
        let result = self.insert_resolved(doc, id, matched);
        proof {
            id.lemma_len();
            assert(answers(old(self).registry().filters(), sent, matched@));
            assert(outcome(
                old(self)@,
                self@,
                result,
                old(self).registry().entries(),
                old(self).registry().view_names(),
                sent@,
                id@,
                matched@,
            ));
        }
        result
    }

    /// Inserts `doc` under `object_id`, with `matched` as the answers of
    /// the views' predicates, by position. First the unique index: where
    /// another identifier claims one of the document's unique values, the
    /// insert is refused and the store is as it was. Else the document
    /// goes into the tag, range and full-text index and the views, and
    /// then into the primary table, in place of the document that the
    /// identifier had, which is returned.
    pub fn insert_resolved(&mut self, doc: Document, object_id: ObjectId, matched: Vec<bool>)
        -> (result: Result<Option<Document>, Error>)
        requires
            old(self).wf(),
        ensures
            final(self).wf(),
            final(self).registry() == old(self).registry(),
            final(self).config() == old(self).config(),
            outcome(
                old(self)@,
                final(self)@,
                result,
                old(self).registry().entries(),
                old(self).registry().view_names(),
                doc@,
                object_id@,
                matched@,
            ),
    {
        let hash_fields = self.indexer.hash_fields();
        if !claim_all(&mut self.hash_index, &hash_fields, &doc, &object_id) {
            return Err(Error::IndexError(IndexError::Duplicate));
        }
        let tag_fields = self.indexer.tag_fields();
        tag_all(&mut self.tag_index, &tag_fields, &object_id);
        let range_fields = self.indexer.range_fields();
        range_all(&mut self.range_index, &range_fields, &doc, &object_id);
        let inverted_fields = self.indexer.inverted_index_fields();
        word_all(&mut self.inverted_index, &inverted_fields, &doc, &object_id);
        let views = self.indexer.view_list();
        view_all(&mut self.tag_index, &views, &matched, &object_id);
        let previous = records_insert(&mut self.data_store, &object_id, doc);
        Ok(previous)
    }

    /// Removes the document under `object_id`, if there is one, from the
    /// primary table, and then from the unique, tag, range and full-text
    /// index, by the values that the removed document has in the
    /// registry's fields. Views keep the identifier.
    pub fn remove(&mut self, object_id: &ObjectId)
        requires
            old(self).wf(),
        ensures
            final(self).wf(),
            final(self).registry() == old(self).registry(),
            final(self).config() == old(self).config(),
            final(self)@ == removed(old(self)@, old(self).registry().entries(), object_id@),
    {
        match records_remove(&mut self.data_store, object_id) {
            Some(doc) => {
                let hash_fields = self.indexer.hash_fields();
                release_all(&mut self.hash_index, &hash_fields, &doc);
                let tag_fields = self.indexer.tag_fields();
                untag_all(&mut self.tag_index, &tag_fields, object_id);
                let range_fields = self.indexer.range_fields();
                unrange_all(&mut self.range_index, &range_fields, &doc, object_id);
                let inverted_fields = self.indexer.inverted_index_fields();
                unword_all(&mut self.inverted_index, &inverted_fields, &doc, object_id);
            },
            None => {
                assert(self@.documents =~= old(self)@.documents);
            },
        }
    }

    /// A copy of the document under `object_id`.
    pub fn find(&self, object_id: &ObjectId) -> (found: Option<Document>)
        ensures
            found is Some <==> self@.documents.contains_key(object_id@),
            found is Some ==> found->0@ == self@.documents[object_id@],
    {
        match records_ref(&self.data_store, object_id) {
            Some(guard) => Some(record_value(&guard).duplicate()),
            None => None,
        }
    }

    /// A copy of every document with its identifier, as the table is at
    /// the time of the call, in no particular order.
    pub fn iter(&self) -> (entries: Vec<(ObjectId, Document)>)
        ensures
            lists_records(entries@, self@.documents),
    {
        let ids = records_ids(&self.data_store);
        let mut entries: Vec<(ObjectId, Document)> = Vec::new();
        let mut i: usize = 0;
        while i < ids.len()
            invariant
                i <= ids@.len(),
                entries@.len() == i,
                lists_ids(ids@, self@.documents.dom()),
                forall|j: int| 0 <= j < i ==> (#[trigger] entries@[j]).0@ == ids@[j]@,
                forall|j: int|
                    0 <= j < i ==> (#[trigger] entries@[j]).1@ == self@.documents[ids@[j]@],
            decreases ids@.len() - i,
        {
            let id = ids[i];
            assert(self@.documents.dom().contains(ids@[i as int]@));
            let document = match records_ref(&self.data_store, &id) {
                Some(guard) => record_value(&guard).duplicate(),
                None => Document::new(),
            };
            entries.push((id, document));
            i += 1;
        }
        assert forall|id: Seq<u8>| self@.documents.contains_key(id) implies exists|i: int|
            0 <= i < entries@.len() && #[trigger] entries@[i].0@ == id by {
            let i = choose|i: int| 0 <= i < ids@.len() && #[trigger] ids@[i]@ == id;
            assert(entries@[i].0@ == id);
        }
        entries
    }

    /// The unique index.
    pub fn hash_index(&self) -> (index: &HashIndex)
        ensures
            index@ == self@.unique,
    {
        &self.hash_index
    }

    /// The tag index.
    pub fn tag_index(&self) -> (index: &TagIndex)
        ensures
            index@.tags == self@.tags,
            index@.views == self@.views,
    {
        &self.tag_index
    }

    /// The range index.
    pub fn range_index(&self) -> (index: &RangeIndex)
        requires
            self.wf(),
        ensures
            index.wf(),
            index@ == self@.ranges,
    {
        &self.range_index
    }

    /// The full-text index.
    pub fn inverted_index(&self) -> (index: &InvertedIndex)
        ensures
            index@ == self@.inverted,
    {
        &self.inverted_index
    }

    /// The registry.
    pub fn indexer(&self) -> (registry: &SyncIndexer<F>)
        ensures
            *registry == self.registry(),
    {
        &self.indexer
    }

    /// The configuration.
    pub fn cfg(&self) -> (config: &Config)
        ensures
            config@ == self.config(),
    {
        &self.cfg
    }
}

} // verus!
