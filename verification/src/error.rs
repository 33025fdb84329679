//! The errors of the store.

use vstd::prelude::*;

verus! {

/// Why an operation of the store failed.
#[derive(Debug, Clone, Copy, PartialEq, Eq, Structural)]
pub enum KvsError {
    /// A command record could not be encoded, or bytes did not decode to one.
    Serde,
    /// `remove` was asked for a key that the index does not hold.
    KeyNotFound,
    /// The bytes that the index points at are not a `Set` record.
    Corruption,
    /// A generation number or a count of bytes would leave the 64-bit range.
    Overflow,
    /// A prepared write or compaction was handed back to a store that has
    /// moved on since it was prepared.
    Stale,
}

} // verus!
