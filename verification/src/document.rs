//! Identifiers, dynamically typed values and documents.

use vstd::prelude::*;

verus! {

/// The name of the field that carries a document's identifier.
#[allow(non_upper_case_globals)]
pub const ObjectID: &'static str = "_id";

/// A 12-byte document identifier.
#[derive(Clone, Copy, Debug, PartialEq, Eq, Hash)]
pub struct ObjectId {
    pub(crate) bytes: [u8; 12],
}

impl View for ObjectId {
    type V = Seq<u8>;

    closed spec fn view(&self) -> Seq<u8> {
        self.bytes@
    }
}

impl ObjectId {
    /// The identifier made of `bytes`.
    pub fn from_bytes(bytes: [u8; 12]) -> (id: ObjectId)
        ensures
            id@ == bytes@,
            id@.len() == 12,
    {
        ObjectId { bytes }
    }

    /// The twelve bytes of the identifier.
    pub fn bytes(&self) -> (bytes: [u8; 12])
        ensures
            bytes@ == self@,
    {
        self.bytes
    }

    /// Every identifier is twelve bytes long.
    pub proof fn lemma_len(self)
        ensures
            self@.len() == 12,
    {
    }

    /// Whether two identifiers hold the same bytes.
    pub fn same(&self, other: &ObjectId) -> (equal: bool)
        ensures
            equal == (self@ == other@),
    {
        let mut i: usize = 0;
        while i < 12
            invariant
                i <= 12,
                forall|j: int| 0 <= j < i ==> self.bytes@[j] == other.bytes@[j],
            decreases 12 - i,
        {
            if self.bytes[i] != other.bytes[i] {
                return false;
            }
            i += 1;
        }
        assert(self.bytes@ =~= other.bytes@);
        true
    }
}

/// The mathematical content of a [`Value`].
pub enum ValueView {
    Null,
    Boolean(bool),
    Int32(i32),
    Int64(i64),
    Text(Seq<char>),
    Array(Seq<ValueView>),
    Embedded(Seq<(Seq<char>, ValueView)>),
    Binary(Seq<u8>),
    Identifier(Seq<u8>),
}

/// The mathematical content of a [`Document`]: its fields in order.
pub type DocumentView = Seq<(Seq<char>, ValueView)>;

/// A dynamically typed value of a document field.
#[derive(Debug, PartialEq)]
pub enum Value {
    Null,
    Boolean(bool),
    Int32(i32),
    Int64(i64),
    Text(String),
    Array(Vec<Value>),
    Embedded(Document),
    Binary(Vec<u8>),
    Identifier(ObjectId),
}

/// One named field of a document.
#[derive(Debug, PartialEq)]
pub struct Field {
    pub(crate) name: String,
    pub(crate) value: Value,
}

/// An ordered mapping from field names to values. No name occurs twice.
#[derive(Debug, PartialEq)]
pub struct Document {
    pub(crate) fields: Vec<Field>,
}

/// The content of `value`.
pub open spec fn value_view(value: Value) -> ValueView
    decreases value,
{
    match value {
        Value::Null => ValueView::Null,
        Value::Boolean(b) => ValueView::Boolean(b),
        Value::Int32(n) => ValueView::Int32(n),
        Value::Int64(n) => ValueView::Int64(n),
        Value::Text(s) => ValueView::Text(s@),
        Value::Array(items) => ValueView::Array(
            Seq::new(
                items@.len(),
                |i: int|
                    if 0 <= i < items@.len() {
                        value_view(items@[i])
                    } else {
                        ValueView::Null
                    },
            ),
        ),
        Value::Embedded(d) => ValueView::Embedded(document_view(d)),
        Value::Binary(b) => ValueView::Binary(b@),
        Value::Identifier(id) => ValueView::Identifier(id@),
    }
}

/// The fields of `document`, in order.
pub closed spec fn document_view(document: Document) -> DocumentView
    decreases document,
{
    Seq::new(
        document.fields@.len(),
        |i: int|
            if 0 <= i < document.fields@.len() {
                (document.fields@[i].name@, value_view(document.fields@[i].value))
            } else {
                (Seq::empty(), ValueView::Null)
            },
    )
}

impl Clone for Value {
    fn clone(&self) -> (copy: Value)
        ensures
            copy@ == self@,
    {
        self.duplicate()
    }
}

impl Clone for Document {
    fn clone(&self) -> (copy: Document)
        ensures
            copy@ == self@,
    {
        self.duplicate()
    }
}

impl View for Value {
    type V = ValueView;

    open spec fn view(&self) -> ValueView {
        value_view(*self)
    }
}

impl View for Document {
    type V = DocumentView;

    open spec fn view(&self) -> DocumentView {
        document_view(*self)
    }
}

/// The first position in `fields` that `name` occupies, or the length of
/// `fields` where no field has that name.
pub open spec fn position(fields: DocumentView, name: Seq<char>) -> int
    decreases fields.len(),
{
    if fields.len() == 0 {
        0
    } else if fields[0].0 == name {
        0
    } else {
        1 + position(fields.drop_first(), name)
    }
}

/// Whether `fields` has a field called `name`.
pub open spec fn has_field(fields: DocumentView, name: Seq<char>) -> bool {
    position(fields, name) < fields.len()
}

/// The value of the field called `name`, where there is one.
pub open spec fn field_value(fields: DocumentView, name: Seq<char>) -> Option<ValueView> {
    if has_field(fields, name) {
        Some(fields[position(fields, name)].1)
    } else {
        None
    }
}

/// `fields` after `name` has been given `value`: the value is replaced in
/// place where the name is present, and appended where it is not.
pub open spec fn with_field(fields: DocumentView, name: Seq<char>, value: ValueView)
    -> DocumentView {
    if has_field(fields, name) {
        fields.update(position(fields, name), (name, value))
    } else {
        fields.push((name, value))
    }
}

/// `position` is within bounds and skips exactly the fields of other names.
pub proof fn lemma_position(fields: DocumentView, name: Seq<char>)
    ensures
        0 <= position(fields, name) <= fields.len(),
        forall|j: int| 0 <= j < position(fields, name) ==> fields[j].0 != name,
        position(fields, name) < fields.len() ==> fields[position(fields, name)].0 == name,
    decreases fields.len(),
{
    if fields.len() != 0 && fields[0].0 != name {
        let rest = fields.drop_first();
        lemma_position(rest, name);
        assert forall|j: int| 0 <= j < position(fields, name) implies fields[j].0 != name by {
            if j > 0 {
                assert(fields[j] == rest[j - 1]);
            }
        }
        assert(position(fields, name) < fields.len() ==> fields[position(fields, name)]
            == rest[position(rest, name)]);
    }
}

/// The first field of a name is found at the first index that holds it.
pub proof fn lemma_position_at(fields: DocumentView, name: Seq<char>, i: int)
    requires
        0 <= i <= fields.len(),
        forall|j: int| 0 <= j < i ==> fields[j].0 != name,
        i < fields.len() ==> fields[i].0 == name,
    ensures
        position(fields, name) == i,
{
    lemma_position(fields, name);
}

impl Value {
    /// A deep copy of the value.
    pub fn duplicate(&self) -> (copy: Value)
        ensures
            copy@ == self@,
        decreases *self,
    {
        match self {
            Value::Null => Value::Null,
            Value::Boolean(b) => Value::Boolean(*b),
            Value::Int32(n) => Value::Int32(*n),
            Value::Int64(n) => Value::Int64(*n),
            Value::Text(s) => Value::Text(s.clone()),
            Value::Array(items) => {
                let mut copies: Vec<Value> = Vec::new();
                let mut i: usize = 0;
                while i < items.len()
                    invariant
                        self is Array,
                        self->Array_0 == *items,
                        i <= items@.len(),
                        copies@.len() == i,
                        forall|j: int| 0 <= j < i ==> copies@[j]@ == items@[j]@,
                    decreases items@.len() - i,
                {
                    let item = &items[i];
                    assert(decreases_to!(*self => self->Array_0));
                    assert(decreases_to!(*items => items[i as int]));
                    assert(*item == items[i as int]);
                    let copy = item.duplicate();
                    copies.push(copy);
                    i += 1;
                }
                let copy = Value::Array(copies);
                assert(copy@ =~= self@) by {
                    assert(copy@->Array_0 =~= self@->Array_0);
                }
                copy
            },
            Value::Embedded(d) => Value::Embedded(d.duplicate()),
            Value::Binary(b) => {
                let bytes = b.clone();
                assert(bytes@ =~= b@);
                Value::Binary(bytes)
            },
            Value::Identifier(id) => Value::Identifier(*id),
        }
    }

    /// The text of a `Text` value.
    pub fn as_str(&self) -> (text: Option<&str>)
        ensures
            match text {
                Some(s) => self@ == ValueView::Text(s@),
                None => !(self@ is Text),
            },
    {
        match self {
            Value::Text(s) => Some(s.as_str()),
            _ => None,
        }
    }

    /// The identifier of an `Identifier` value.
    pub fn as_object_id(&self) -> (id: Option<ObjectId>)
        ensures
            match id {
                Some(i) => self@ == ValueView::Identifier(i@),
                None => !(self@ is Identifier),
            },
    {
        match self {
            Value::Identifier(id) => Some(*id),
            _ => None,
        }
    }
}

impl Document {
    #[verifier::type_invariant]
    spec fn names_are_distinct(self) -> bool {
        forall|i: int, j: int|
            0 <= i < j < self.fields@.len() ==> self.fields@[i].name@ != self.fields@[j].name@
    }

    /// The document without fields.
    pub fn new() -> (document: Document)
        ensures
            document@ == Seq::<(Seq<char>, ValueView)>::empty(),
    {
        let document = Document { fields: Vec::new() };
        assert(document@ =~= Seq::<(Seq<char>, ValueView)>::empty());
        document
    }

    /// A deep copy of the document.
    pub fn duplicate(&self) -> (copy: Document)
        ensures
            copy@ == self@,
        decreases *self,
    {
        proof {
            use_type_invariant(self);
        }
        let mut fields: Vec<Field> = Vec::new();
        let mut i: usize = 0;
        while i < self.fields.len()
            invariant
                i <= self.fields@.len(),
                fields@.len() == i,
                forall|j: int|
                    0 <= j < i ==> fields@[j].name@ == self.fields@[j].name@ && fields@[j].value@
                        == self.fields@[j].value@,
            decreases self.fields@.len() - i,
        {
            let name = self.fields[i].name.clone();
            let value = self.fields[i].value.duplicate();
            fields.push(Field { name, value });
            i += 1;
        }
        let copy = Document { fields };
        assert(copy@ =~= self@);
        copy
    }

    /// The number of fields.
    pub fn len(&self) -> (n: usize)
        ensures
            n == self@.len(),
    {
        self.fields.len()
    }

    /// The name of the field at `index`.
    pub fn name_at(&self, index: usize) -> (name: &String)
        requires
            index < self@.len(),
        ensures
            name@ == self@[index as int].0,
    {
        &self.fields[index].name
    }

    /// The value of the field at `index`.
    pub fn value_at(&self, index: usize) -> (value: &Value)
        requires
            index < self@.len(),
        ensures
            value@ == self@[index as int].1,
    {
        &self.fields[index].value
    }

    /// The position of the field called `name`, or the number of fields
    /// where there is none.
    fn locate(&self, name: &str) -> (index: usize)
        ensures
            index == position(self@, name@),
            index <= self@.len(),
    {
        let wanted = name.to_owned();
        let mut i: usize = 0;
        while i < self.fields.len()
            invariant
                i <= self.fields@.len(),
                wanted@ == name@,
                forall|j: int| 0 <= j < i ==> self@[j].0 != name@,
            decreases self.fields@.len() - i,
        {
            if self.fields[i].name == wanted {
                proof {
                    lemma_position_at(self@, name@, i as int);
                }
                return i;
            }
            i += 1;
        }
        proof {
            lemma_position_at(self@, name@, i as int);
        }
        i
    }

    /// The value of the field called `name`.
    pub fn get(&self, name: &str) -> (value: Option<&Value>)
        ensures
            match value {
                Some(v) => field_value(self@, name@) == Some(v@),
                None => field_value(self@, name@) is None,
            },
    {
        let i = self.locate(name);
        if i < self.fields.len() {
            Some(&self.fields[i].value)
        } else {
            None
        }
    }

    /// Whether the document has a field called `name`.
    pub fn contains_key(&self, name: &str) -> (present: bool)
        ensures
            present == has_field(self@, name@),
    {
        let i = self.locate(name);
        i < self.fields.len()
    }

    /// Gives the field called `name` the value `value` and returns the value
    /// it had. A new name is appended after the fields already there.
    pub fn insert(&mut self, name: String, value: Value) -> (previous: Option<Value>)
        ensures
            final(self)@ == with_field(old(self)@, name@, value@),
            match previous {
                Some(v) => field_value(old(self)@, name@) == Some(v@),
                None => field_value(old(self)@, name@) is None,
            },
    {
        proof {
            use_type_invariant(&*self);
        }
        let i = self.locate(name.as_str());
        proof {
            lemma_position(self@, name@);
        }
        let ghost before = self.fields@;
        let mut fields: Vec<Field> = Vec::new();
        std::mem::swap(&mut self.fields, &mut fields);
        if i < fields.len() {
            assert(before[i as int].name@ == old(self)@[i as int].0);
            let replaced = fields.remove(i);
            fields.insert(i, Field { name, value });
            assert(fields@.len() == before.len());
            assert forall|a: int, b: int| 0 <= a < b < fields@.len() implies fields@[a].name@
                != fields@[b].name@ by {
                assert(fields@[a].name@ == before[a].name@);
                assert(fields@[b].name@ == before[b].name@);
            }
            self.fields = fields;
            assert(self@ =~= with_field(old(self)@, name@, value@));
            Some(replaced.value)
        } else {
            assert forall|a: int| 0 <= a < before.len() implies before[a].name@ != name@ by {
                assert(old(self)@[a].0 == before[a].name@);
            }
            fields.push(Field { name, value });
            self.fields = fields;
            assert(self@ =~= with_field(old(self)@, name@, value@));
            None
        }
    }
}

} // verus!
