use vstd::prelude::*;

verus! {

/// The error kinds a cache operation can report.
///
/// Every public operation returns a typed result; no operation panics on a
/// reachable, caller-triggerable path.  Mutating operations leave no partial
/// state behind on any error.
#[derive(Clone, Copy, PartialEq, Eq, Structural, Debug)]
pub enum CacheError {
    /// An identifier or name has no registered schema, or a record carries no
    /// schema identifier at all.
    SchemaNotFound,
    /// The lookup key is absent from the primary-key index.
    KeyNotFound,
    /// An index was consulted before it was registered: a programmer error,
    /// not a user-recoverable condition.
    IndexLookupInvariantViolation,
    /// A record or schema does not fit the shape it must encode to: a field
    /// count that disagrees with its schema, or a field reference past the
    /// end of the field list.
    SerializationError,
    /// The underlying store reported a failure; treated as opaque and
    /// non-retryable by this layer.
    StoreError,
}

impl CacheError {
    /// A short human-readable name for the error kind.
    pub fn describe(&self) -> (r: &'static str)
    {
        match self {
            CacheError::SchemaNotFound => "schema not found",
            CacheError::KeyNotFound => "key not found",
            CacheError::IndexLookupInvariantViolation => "index lookup invariant violation",
            CacheError::SerializationError => "serialization error",
            CacheError::StoreError => "store error",
        }
    }
}

} // verus!
