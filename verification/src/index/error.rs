//! What an index can refuse.

use vstd::prelude::*;

verus! {

/// The failure of an index operation.
#[derive(Clone, Copy, Debug, PartialEq, Eq, Structural)]
pub enum IndexError {
    /// The value is claimed by another identifier, or the field has an
    /// index already.
    Duplicate,
}

} // verus!
