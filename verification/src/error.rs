//! The faults that indexing and merging can report.

use vstd::prelude::*;

verus! {

/// Why an indexing or merging step was refused.
///
/// Every fault leaves the global index as it was before the call.
#[derive(Debug, Clone, Copy, PartialEq, Eq, Structural)]
pub enum IndexError {
    /// The n-gram width is zero.
    InvalidWindowWidth,
    /// Two different strings were given the same identifier.
    IdentityCollision,
    /// A postings chain handed to a merge is not ascending by document.
    UnsortedChainPrecondition,
    /// A merge would leave two nodes of one chain with the same document.
    DuplicateDocumentInChain,
}

} // verus!
