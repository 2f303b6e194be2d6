//! What the store can refuse.

use crate::index::error::IndexError;
use vstd::prelude::*;

verus! {

/// The failure of a store operation.
#[derive(Clone, Copy, Debug, PartialEq, Eq, Structural)]
pub enum Error {
    /// The document's identifier field holds something else than an
    /// identifier.
    InvalidObjectId,
    /// An index refused the document.
    IndexError(IndexError),
}

} // verus!
