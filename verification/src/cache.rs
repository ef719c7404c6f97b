use vstd::prelude::*;

use crate::error::CacheError;

verus! {

/// A shared key-to-bytes cache with at-least-once set semantics. Lookups
/// never fail, they just miss; a failed set is a warning to the reader,
/// never an error.
pub trait Cache {
    fn get(&self, key: &str) -> Option<Vec<u8>>;

    fn set(&self, key: &str, data: &[u8]) -> Result<(), CacheError>;
}

} // verus!
