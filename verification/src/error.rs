//! Typed failures of the page store.

use vstd::prelude::*;

verus! {

/// What a page-store operation can report.
///
/// A lost compare-and-swap race is not an `Error`: racing is an expected
/// outcome and is carried as the inner `Result` of the racing operation.
#[derive(Debug)]
pub enum Error {
    /// A lookup under a name that the directory does not hold. Recoverable:
    /// it drives the allocation path of the bootstrap protocol.
    CollectionNotFound(Vec<u8>),
    /// An unrecoverable programming-level inconsistency, such as freeing a
    /// page slot that is not live.
    ReportableBug,
}

impl Error {
    /// True exactly when this is a `CollectionNotFound` for the given name.
    pub open spec fn is_collection_not_found(self, name: Seq<u8>) -> bool {
        self matches Error::CollectionNotFound(n) && n@ == name
    }
}

} // verus!
