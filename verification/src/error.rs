use vstd::prelude::*;

verus! {

/// The closed set of failure kinds surfaced by every fallible cache
/// operation. The kind itself is the stable contract; the carried strings
/// are human-readable context only.
#[derive(Debug, Clone, PartialEq, Eq)]
pub enum CacheError {
    /// A bounded store could not make room for the incoming value.
    CacheFull,
    /// A filesystem operation failed; the message describes the cause.
    Io(String),
    /// A codec failure while encoding or decoding stored data.
    Serialization(String),
    /// The given key cannot be used by this store.
    InvalidKey(String),
    /// Compressing or decompressing a value failed.
    Compression(String),
}

impl CacheError {
    /// A short, stable name for the error kind, usable in logs.
    pub fn kind_name(&self) -> (r: &'static str)
        ensures
            r@ == self.spec_kind_name(),
    {
        match self {
            CacheError::CacheFull => "cache full",
            CacheError::Io(_) => "io",
            CacheError::Serialization(_) => "serialization",
            CacheError::InvalidKey(_) => "invalid key",
            CacheError::Compression(_) => "compression",
        }
    }

    pub open spec fn spec_kind_name(self) -> Seq<char> {
        match self {
            CacheError::CacheFull => "cache full"@,
            CacheError::Io(_) => "io"@,
            CacheError::Serialization(_) => "serialization"@,
            CacheError::InvalidKey(_) => "invalid key"@,
            CacheError::Compression(_) => "compression"@,
        }
    }
}

} // verus!
