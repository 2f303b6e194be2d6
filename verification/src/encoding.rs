//! The canonical text of a value, under which the unique index and the
//! range index file it, and fresh identifiers.

use crate::document::{ObjectId, Value, ValueView};
use bson::spec::BinarySubtype::Generic;
use bson::{Binary, Bson};
use vstd::prelude::*;

verus! {

#[verifier::external_type_specification]
#[verifier::external_body]
pub struct ExBson(Bson);

/// The content of a BSON value.
pub uninterp spec fn carried(bson: Bson) -> ValueView;

/// The text that BSON displays a value as.
pub uninterp spec fn rendering(value: ValueView) -> Seq<char>;

/// Builds a `bson::Bson` of the same content from the variant of the same
/// kind (`Bson::Null`, `Bson::Boolean`, `Bson::Int32`, `Bson::Int64`,
/// `Bson::String`, `Bson::Array`, `Bson::Document`, `Bson::Binary` with
/// the generic subtype, `Bson::ObjectId`), item by item and field by
/// field. The contract claims that the result carries what `value` holds.
/// That rests on the names of an embedded document being distinct, which
/// holds of every `Document`: a BSON document keeps one value per name.
#[verifier::external_body]
pub(crate) fn to_bson(value: &Value) -> (bson: Bson)
    ensures
        carried(bson) == value@,
{
    match value {
        Value::Null => Bson::Null,
        Value::Boolean(b) => Bson::Boolean(*b),
        Value::Int32(n) => Bson::Int32(*n),
        Value::Int64(n) => Bson::Int64(*n),
        Value::Text(s) => Bson::String(s.clone()),
        Value::Array(a) => Bson::Array(a.iter().map(to_bson).collect()),
        Value::Embedded(d) => Bson::Document(
            d.fields.iter().map(|f| (f.name.clone(), to_bson(&f.value))).collect(),
        ),
        Value::Binary(b) => Bson::Binary(Binary { subtype: Generic, bytes: b.clone() }),
        Value::Identifier(id) => Bson::ObjectId(id.bytes.into()),
    }
}

/// Calls `to_string` of `bson::Bson`, which goes by its `Display`. The
/// contract gives the result the name `rendering`: it is a function of the
/// value's content alone.
#[verifier::external_body]
pub(crate) fn bson_text(bson: &Bson) -> (text: String)
    ensures
        text@ == rendering(carried(*bson)),
{
    bson.to_string()
}

/// Calls `bson::oid::ObjectId::new`, which makes an identifier from the
/// time, a value of the process and a counter. Nothing is claimed of it.
#[verifier::external_body]
pub(crate) fn fresh_bytes() -> (bytes: [u8; 12]) {
    bson::oid::ObjectId::new().bytes()
}

/// The canonical text of `value`.
pub fn canonical_text(value: &Value) -> (text: String)
    ensures
        text@ == rendering(value@),
{
    let bson = to_bson(value);
    bson_text(&bson)
}

/// A new identifier. It is made from the time, a value of the process and
/// a counter, so that it differs from those made before; nothing here
/// proves that it does.
pub fn generate() -> (id: ObjectId)
    ensures
        id@.len() == 12,
{
    ObjectId::from_bytes(fresh_bytes())
}

} // verus!
