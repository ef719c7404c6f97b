use vstd::prelude::*;

use crate::error::FetcherError;

verus! {

/// A blob store the archive reader pulls bytes from: whole objects and byte
/// ranges, each paired with the backend's version tag when it supplies one.
/// Backends live outside this crate; nothing is assumed about what they
/// return, and every caller states only what holds of every outcome.
pub trait Fetcher {
    /// Fetch `length` bytes starting at `offset` of the object at `path`.
    fn get_data_range(&self, path: &str, offset: usize, length: usize) -> Result<
        (Vec<u8>, Option<String>),
        FetcherError,
    >;

    /// Fetch the whole object at `path`.
    fn get_data(&self, path: &str) -> Result<(Vec<u8>, Option<String>), FetcherError>;
}

} // verus!
