//! What can go wrong in the index.

use vstd::prelude::*;

verus! {

/// The failures that the index reports.
#[derive(Clone, Copy, Debug, PartialEq, Eq, Structural)]
pub enum Error {
    /// A stored item could not be materialised: it has neither data in
    /// memory nor a storage to read from, or reading or decoding it failed.
    LoadError,
    /// A comparison met an item whose first sketch is missing or of a kind
    /// that cannot be compared.
    IncompatibleSketch,
    /// An index refused an item.
    Rejected,
}

} // verus!
