//! The unique index: each value is claimed by at most one identifier.

use super::error::IndexError;
use crate::concurrent::{
    claims, claims_get, claims_insert, claims_list, claims_new, claims_remove, lists_claims,
    ClaimMap,
};
use crate::document::ObjectId;
use vstd::prelude::*;

verus! {

/// The mathematical content of a unique index: each claimed value with
/// the identifier that claims it.
pub type ClaimView = Map<Seq<char>, Seq<u8>>;

/// Whether `reference` is claimed by an identifier other than `id`.
pub open spec fn claimed_by_other(index: ClaimView, reference: Seq<char>, id: Seq<u8>) -> bool {
    index.contains_key(reference) && index[reference] != id
}

/// A one-to-one index from a value to the identifier that claims it.
pub struct HashIndex {
    hash: ClaimMap,
}

impl View for HashIndex {
    type V = ClaimView;

    closed spec fn view(&self) -> ClaimView {
        claims(self.hash)
    }
}

impl HashIndex {
    /// The index without claims.
    pub fn new() -> (index: Self)
        ensures
            index@ == ClaimView::empty(),
    {
        let index = HashIndex { hash: claims_new() };
        assert(index@ =~= ClaimView::empty());
        index
    }

    /// Claims `reference` for `object_id`. A value that another identifier
    /// claims is refused, and the index is left as it was.
    pub fn insert(&mut self, reference: String, object_id: ObjectId) -> (result: Result<
        (),
        IndexError,
    >)
        ensures
            result is Err <==> claimed_by_other(old(self)@, reference@, object_id@),
            result is Err ==> result->Err_0 == IndexError::Duplicate && final(self)@ == old(self)@,
            result is Ok ==> final(self)@ == old(self)@.insert(reference@, object_id@),
    {
        match claims_get(&self.hash, reference.as_str()) {
            Some(owner) => {
                if !owner.same(&object_id) {
                    return Err(IndexError::Duplicate);
                }
            },
            None => {},
        }
        claims_insert(&mut self.hash, reference, &object_id);
        Ok(())
    }

    /// Gives up the claim on `reference`, where there is one.
    pub fn remove(&mut self, reference: &String)
        ensures
            final(self)@ == old(self)@.remove(reference@),
    {
        claims_remove(&mut self.hash, reference.as_str());
    }

    /// The identifier that claims `reference`.
    pub fn lookup(&self, reference: &String) -> (owner: Option<ObjectId>)
        ensures
            owner is Some <==> self@.contains_key(reference@),
            owner is Some ==> owner->0@ == self@[reference@],
    {
        claims_get(&self.hash, reference.as_str())
    }

    /// The claims at the time of the call, in no particular order.
    pub fn iter(&self) -> (entries: Vec<(String, ObjectId)>)
        ensures
            lists_claims(entries@, self@),
    {
        claims_list(&self.hash)
    }
}

} // verus!
