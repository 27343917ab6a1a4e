//! The failures that retrieval reports to its caller.
use vstd::prelude::*;

verus! {

/// Why a search or a result-forest operation failed.
#[derive(Clone, Copy, Debug, PartialEq, Eq, Structural)]
pub enum RetrievalError {
    /// An identifier or title is absent from the store.
    NotFound,
    /// The store breaks the forest shape: an item with both or neither
    /// owner set, or a parent chain that never reaches a page.
    IntegrityViolation,
    /// The request itself is malformed: `k` below one, or a stored vector
    /// whose dimensionality differs from the query's.
    InvalidInput,
    /// The store holds no vectors to search.
    EmptyResult,
}

/// Why an exported page cannot be written to the store.
#[derive(Clone, Copy, Debug, PartialEq, Eq, Structural)]
pub enum ImportError {
    /// A create or edit time does not fit a signed 64-bit integer.
    TimeOutOfRange,
    /// An item's position among its siblings does not fit a signed 32-bit
    /// integer.
    OrderOutOfRange,
}

} // verus!
