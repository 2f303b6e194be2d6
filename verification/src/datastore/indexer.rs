//! The field registry: which field feeds which index, and the named views.

use crate::document::Document;
use crate::index::error::IndexError;
use crate::text::texts;
use vstd::prelude::*;

verus! {

/// The kind of index that a field feeds.
#[derive(Clone, Copy, Debug, PartialEq, Eq, Structural)]
pub enum IndexType {
    Unique,
    Tag,
    Range,
    Inverted,
}

/// The mathematical content of the registry's fields: each field with its
/// kind, in the order of definition.
pub type Entries = Seq<(Seq<char>, IndexType)>;

/// Whether `field` has a kind.
pub open spec fn defines(entries: Entries, field: Seq<char>) -> bool {
    exists|i: int| 0 <= i < entries.len() && (#[trigger] entries[i]).0 == field
}

/// A position of `field`, where it has a kind.
pub open spec fn entry_of(entries: Entries, field: Seq<char>) -> int {
    choose|i: int| 0 <= i < entries.len() && (#[trigger] entries[i]).0 == field
}

/// The kind of `field`.
pub open spec fn kind_of(entries: Entries, field: Seq<char>) -> Option<IndexType> {
    if defines(entries, field) {
        Some(entries[entry_of(entries, field)].1)
    } else {
        None
    }
}

/// `entries` without `field`.
pub open spec fn without_field(entries: Entries, field: Seq<char>) -> Entries {
    if defines(entries, field) {
        entries.remove(entry_of(entries, field))
    } else {
        entries
    }
}

/// Whether no field occurs twice.
pub open spec fn distinct_fields(entries: Entries) -> bool {
    forall|i: int, j: int|
        0 <= i < j < entries.len() ==> (#[trigger] entries[i]).0 != (#[trigger] entries[j]).0
}

/// The fields of kind `kind`, in the order of definition.
pub open spec fn fields_of(entries: Entries, kind: IndexType) -> Seq<Seq<char>>
    decreases entries.len(),
{
    if entries.len() == 0 {
        Seq::empty()
    } else {
        let rest = fields_of(entries.drop_last(), kind);
        if entries.last().1 == kind {
            rest.push(entries.last().0)
        } else {
            rest
        }
    }
}

/// Whether `names` holds `name`.
pub open spec fn names_hold(names: Seq<Seq<char>>, name: Seq<char>) -> bool {
    exists|i: int| 0 <= i < names.len() && #[trigger] names[i] == name
}

/// A position of `name` in `names`, where they hold it.
pub open spec fn name_at(names: Seq<Seq<char>>, name: Seq<char>) -> int {
    choose|i: int| 0 <= i < names.len() && #[trigger] names[i] == name
}

/// Whether `matched` holds, for each of `filters`, an answer that it may
/// give to `document`.
pub open spec fn answers<F: Fn(&Document) -> bool>(
    filters: Seq<F>,
    document: Document,
    matched: Seq<bool>,
) -> bool {
    &&& matched.len() == filters.len()
    &&& forall|i: int|
        0 <= i < filters.len() ==> call_ensures(filters[i], (&document,), #[trigger] matched[i])
}

/// The registry of a store. It is read on every insert and removal of a
/// document, and written when the schema changes.
pub struct SyncIndexer<F> {
    fields: Vec<(String, IndexType)>,
    views: Vec<(String, F)>,
}

impl<F: Fn(&Document) -> bool> SyncIndexer<F> {
    /// The fields with their kinds, in the order of definition.
    pub closed spec fn entries(self) -> Entries {
        Seq::new(self.fields@.len(), |i: int| (self.fields@[i].0@, self.fields@[i].1))
    }

    /// The names of the views, in the order of definition.
    pub closed spec fn view_names(self) -> Seq<Seq<char>> {
        Seq::new(self.views@.len(), |i: int| self.views@[i].0@)
    }

    /// The predicates of the views, in the order of definition.
    pub closed spec fn filters(self) -> Seq<F> {
        Seq::new(self.views@.len(), |i: int| self.views@[i].1)
    }

    /// Whether no field and no view occurs twice, and every predicate
    /// accepts every document.
    pub closed spec fn wf(self) -> bool {
        &&& distinct_fields(self.entries())
        &&& forall|i: int, j: int|
            0 <= i < j < self.views@.len() ==> self.views@[i].0@ != self.views@[j].0@
        &&& forall|i: int, document: Document|
            0 <= i < self.views@.len() ==> #[trigger] call_requires(
                self.views@[i].1,
                (&document,),
            )
    }

    /// The registry without fields and views.
    pub fn new() -> (registry: Self)
        ensures
            registry.wf(),
            registry.entries() == Entries::empty(),
            registry.view_names() == Seq::<Seq<char>>::empty(),
            registry.filters() == Seq::<F>::empty(),
    {
        let registry = SyncIndexer { fields: Vec::new(), views: Vec::new() };
        assert(registry.entries() =~= Entries::empty());
        assert(registry.view_names() =~= Seq::<Seq<char>>::empty());
        assert(registry.filters() =~= Seq::<F>::empty());
        registry
    }

    /// The position of `field_name`, or the number of fields where it has
    /// no kind.
    fn locate(&self, field_name: &str) -> (index: usize)
        requires
            self.wf(),
        ensures
            index <= self.entries().len(),
            index < self.entries().len() <==> defines(self.entries(), field_name@),
            index < self.entries().len() ==> entry_of(self.entries(), field_name@) == index,
    {
        let wanted = field_name.to_owned();
        let mut i: usize = 0;
        while i < self.fields.len()
            invariant
                i <= self.fields@.len(),
                self.wf(),
                wanted@ == field_name@,
                forall|j: int| 0 <= j < i ==> (#[trigger] self.entries()[j]).0 != field_name@,
            decreases self.fields@.len() - i,
        {
            if self.fields[i].0 == wanted {
                proof {
                    assert(self.entries()[i as int].0 == field_name@);
                    let j = entry_of(self.entries(), field_name@);
                    assert(self.entries()[j].0 == field_name@);
                    if j > i {
                        assert(self.entries()[i as int].0 != self.entries()[j].0);
                    }
                }
                return i;
            }
            i += 1;
        }
        i
    }

    /// Gives `field_name` the kind `index_type`. A field that has a kind is
    /// refused, and the registry is left as it was.
    pub fn define_index(&mut self, field_name: &str, index_type: IndexType) -> (result: Result<
        (),
        IndexError,
    >)
        requires
            old(self).wf(),
        ensures
            final(self).wf(),
            final(self).view_names() == old(self).view_names(),
            final(self).filters() == old(self).filters(),
            result is Err <==> defines(old(self).entries(), field_name@),
            result is Err ==> result->Err_0 == IndexError::Duplicate && final(self).entries()
                == old(self).entries(),
            result is Ok ==> final(self).entries() == old(self).entries().push(
                (field_name@, index_type),
            ),
    {
        let i = self.locate(field_name);
        if i < self.fields.len() {
            return Err(IndexError::Duplicate);
        }
        self.fields.push((field_name.to_owned(), index_type));
        proof {
            assert(self.entries() =~= old(self).entries().push((field_name@, index_type)));
            assert(self.view_names() =~= old(self).view_names());
            assert(self.filters() =~= old(self).filters());
            assert forall|a: int, b: int| 0 <= a < b < self.entries().len() implies (
            #[trigger] self.entries()[a]).0 != (#[trigger] self.entries()[b]).0 by {
                assert(self.entries()[a] == old(self).entries()[a]);
                if b < old(self).entries().len() {
                    assert(self.entries()[b] == old(self).entries()[b]);
                }
            }
        }
        Ok(())
    }

    /// Takes the kind of `field_name` away, whatever the kind is:
    /// `index_type` is not consulted.
    pub fn remove_index(&mut self, field_name: &String, index_type: IndexType)
        requires
            old(self).wf(),
        ensures
            final(self).wf(),
            final(self).view_names() == old(self).view_names(),
            final(self).filters() == old(self).filters(),
            final(self).entries() == without_field(old(self).entries(), field_name@),
            !defines(final(self).entries(), field_name@),
    {
        let i = self.locate(field_name.as_str());
        if i < self.fields.len() {
            let _ = self.fields.remove(i);
            proof {
                let before = old(self).entries();
                assert(self.entries() =~= before.remove(i as int));
                assert(self.view_names() =~= old(self).view_names());
                assert(self.filters() =~= old(self).filters());
                assert forall|a: int| 0 <= a < self.entries().len() implies (
                #[trigger] self.entries()[a]).0 != field_name@ by {
                    if a < i {
                        assert(self.entries()[a] == before[a]);
                    } else {
                        assert(self.entries()[a] == before[a + 1]);
                    }
                }
                assert forall|a: int, b: int| 0 <= a < b < self.entries().len() implies (
                #[trigger] self.entries()[a]).0 != (#[trigger] self.entries()[b]).0 by {
                    let a0 = if a < i { a } else { a + 1 };
                    let b0 = if b < i { b } else { b + 1 };
                    assert(self.entries()[a] == before[a0]);
                    assert(self.entries()[b] == before[b0]);
                }
            }
        }
    }

    /// The kind of `field_name`.
    pub fn find(&self, field_name: &String) -> (kind: Option<IndexType>)
        requires
            self.wf(),
        ensures
            kind == kind_of(self.entries(), field_name@),
    {
        let i = self.locate(field_name.as_str());
        if i < self.fields.len() {
            assert(self.entries()[i as int].1 == self.fields@[i as int].1);
            Some(self.fields[i].1)
        } else {
            None
        }
    }

    /// Registers `filter` as the predicate of the view called `name`, in
    /// place of the predicate that the view had, if any.
    pub fn define_view(&mut self, name: &str, filter: F)
        requires
            old(self).wf(),
            forall|document: Document| call_requires(filter, (&document,)),
        ensures
            final(self).wf(),
            final(self).entries() == old(self).entries(),
            names_hold(old(self).view_names(), name@) ==> final(self).view_names() == old(self).view_names() && final(self).filters() == old(self).filters().update(
                name_at(old(self).view_names(), name@),
                filter,
            ),
            !names_hold(old(self).view_names(), name@) ==> final(self).view_names() == old(self).view_names().push(name@) && final(self).filters() == old(self).filters().push(filter),
    {
        let wanted = name.to_owned();
        let mut i: usize = 0;
        while i < self.views.len() && !(self.views[i].0 == wanted)
            invariant
                i <= self.views@.len(),
                wanted@ == name@,
                forall|j: int| 0 <= j < i ==> self.view_names()[j] != name@,
            decreases self.views@.len() - i,
        {
            i += 1;
        }
        let ghost names = self.view_names();
        let ghost before = self.views@;
        assert(forall|j: int| 0 <= j < before.len() ==> names[j] == before[j].0@);
        if i < self.views.len() {
            assert(names[i as int] == name@);
            assert(name_at(names, name@) == i) by {
                let j = name_at(names, name@);
                assert(names[j] == self.views@[j].0@);
            }
            let _ = self.views.remove(i);
            self.views.insert(i, (wanted, filter));
            assert forall|a: int| 0 <= a < self.views@.len() implies self.views@[a].0@
                == before[a].0@ by {}
            assert forall|a: int| 0 <= a < self.views@.len() && a != i implies self.views@[a].1
                == before[a].1 by {}
            assert(self.view_names() =~= names);
            assert(self.filters() =~= old(self).filters().update(i as int, filter));
        } else {
            self.views.push((wanted, filter));
            assert forall|a: int| 0 <= a < before.len() implies self.views@[a] == before[a] by {}
            assert(self.view_names() =~= names.push(name@));
            assert(self.filters() =~= old(self).filters().push(filter));
        }
        assert(self.entries() =~= old(self).entries());
        assert forall|a: int, b: int| 0 <= a < b < self.views@.len() implies self.views@[a].0@
            != self.views@[b].0@ by {
            if b < before.len() {
                assert(before[a].0@ != before[b].0@);
            } else {
                assert(names[a] != name@);
            }
        }
        assert forall|a: int, document: Document| 0 <= a < self.views@.len() implies #[trigger]
        call_requires(self.views@[a].1, (&document,)) by {
            if a < before.len() && !(a == i) {
                assert(call_requires(before[a].1, (&document,)));
            }
        }
    }

    /// The fields of kind `kind`, in the order of definition.
    pub fn fields_of_kind(&self, kind: IndexType) -> (list: Vec<String>)
        ensures
            texts(list@) == fields_of(self.entries(), kind),
    {
        let ghost all = self.entries();
        let mut list: Vec<String> = Vec::new();
        let mut i: usize = 0;
        assert(texts(list@) =~= fields_of(all.take(0), kind));
        while i < self.fields.len()
            invariant
                i <= self.fields@.len(),
                all == self.entries(),
                texts(list@) == fields_of(all.take(i as int), kind),
            decreases self.fields@.len() - i,
        {
            proof {
                assert(all.take(i + 1).drop_last() =~= all.take(i as int));
                assert(all.take(i + 1).last() == all[i as int]);
            }
            if self.fields[i].1 == kind {
                let ghost held = list@;
                list.push(self.fields[i].0.clone());
                assert(texts(list@) =~= texts(held).push(all[i as int].0));
            }
            i += 1;
        }
        assert(all.take(all.len() as int) =~= all);
        list
    }

    /// The fields that feed the unique index.
    pub fn hash_fields(&self) -> (list: Vec<String>)
        ensures
            texts(list@) == fields_of(self.entries(), IndexType::Unique),
    {
        self.fields_of_kind(IndexType::Unique)
    }

    /// The fields that feed the tag index.
    pub fn tag_fields(&self) -> (list: Vec<String>)
        ensures
            texts(list@) == fields_of(self.entries(), IndexType::Tag),
    {
        self.fields_of_kind(IndexType::Tag)
    }

    /// The fields that feed the range index.
    pub fn range_fields(&self) -> (list: Vec<String>)
        ensures
            texts(list@) == fields_of(self.entries(), IndexType::Range),
    {
        self.fields_of_kind(IndexType::Range)
    }

    /// The fields that feed the full-text index.
    pub fn inverted_index_fields(&self) -> (list: Vec<String>)
        ensures
            texts(list@) == fields_of(self.entries(), IndexType::Inverted),
    {
        self.fields_of_kind(IndexType::Inverted)
    }

    /// The names of the views, in the order of definition.
    pub fn view_list(&self) -> (list: Vec<String>)
        ensures
            texts(list@) == self.view_names(),
    {
        let mut list: Vec<String> = Vec::new();
        let mut i: usize = 0;
        while i < self.views.len()
            invariant
                i <= self.views@.len(),
                list@.len() == i,
                forall|j: int| 0 <= j < i ==> list@[j]@ == self.views@[j].0@,
            decreases self.views@.len() - i,
        {
            list.push(self.views[i].0.clone());
            i += 1;
        }
        assert(texts(list@) =~= self.view_names());
        list
    }

    /// Asks the predicate of each view whether `document` belongs to it.
    pub fn evaluate(&self, document: &Document) -> (matched: Vec<bool>)
        requires
            self.wf(),
        ensures
            answers(self.filters(), *document, matched@),
    {
        let mut matched: Vec<bool> = Vec::new();
        let mut i: usize = 0;
        while i < self.views.len()
            invariant
                i <= self.views@.len(),
                self.wf(),
                matched@.len() == i,
                forall|j: int|
                    0 <= j < i ==> call_ensures(
                        self.views@[j].1,
                        (document,),
                        #[trigger] matched@[j],
                    ),
            decreases self.views@.len() - i,
        {
            let filter = &self.views[i].1;
            let answer = filter(document);
            matched.push(answer);
            i += 1;
        }
        matched
    }
}

/// A field that was defined has the kind it was given, and the fields
/// defined before keep their kinds.
pub proof fn lemma_defined_kind(entries: Entries, field: Seq<char>, kind: IndexType)
    requires
        distinct_fields(entries),
        !defines(entries, field),
    ensures
        kind_of(entries.push((field, kind)), field) == Some(kind),
        forall|other: Seq<char>|
            other != field ==> kind_of(entries.push((field, kind)), other) == kind_of(
                entries,
                other,
            ),
{
    let longer = entries.push((field, kind));
    assert(longer[entries.len() as int].0 == field);
    let at = entry_of(longer, field);
    if at < entries.len() {
        assert(entries[at].0 == field);
    }
    assert forall|other: Seq<char>| other != field implies kind_of(longer, other) == kind_of(
        entries,
        other,
    ) by {
        if defines(entries, other) {
            let i = entry_of(entries, other);
            assert(longer[i].0 == other);
            let j = entry_of(longer, other);
            assert(entries[j] == longer[j]);
            if i < j {
                assert(entries[i].0 != entries[j].0);
            } else if j < i {
                assert(entries[j].0 != entries[i].0);
            }
        } else if defines(longer, other) {
            let j = entry_of(longer, other);
            assert(entries[j].0 == other);
        }
    }
}

} // verus!
