//! Errors reported by the timeline and the sync engine.

use vstd::prelude::*;

verus! {

/// Why an operation could not be applied or a message not delivered.
#[derive(Debug, Clone, PartialEq, Eq)]
pub enum SyncError {
    /// The operation references an entity that does not exist (yet).
    UnknownTarget {
        /// `"clip"` or `"track"`.
        kind: &'static str,
        /// The raw id of the missing entity.
        id: u64,
    },
    /// The transport could not deliver a message (for example, no peer is
    /// connected).
    Transport,
}

} // verus!
