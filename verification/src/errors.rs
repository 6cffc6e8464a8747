use vstd::prelude::*;

verus! {

/// A failure originating from the backing store.
#[derive(Clone, Copy, Debug, PartialEq, Eq, Structural)]
pub enum StoreError {
    /// Connectivity to the store was lost mid-operation.
    Backend,
    /// An insert violated a unique-key constraint.
    UniqueViolation,
}

/// The adaptor's error taxonomy: a plain store failure, or a failure of
/// the transaction wrapper around the retention sweep. The latter wraps
/// the underlying store error, so callers can retry transaction-level
/// failures differently from single-statement ones.
#[derive(Clone, Copy, Debug, PartialEq, Eq, Structural)]
pub enum AdaptorError {
    Store(StoreError),
    Transaction(StoreError),
}

} // verus!
