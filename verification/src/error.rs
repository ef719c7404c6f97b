use vstd::prelude::*;

verus! {

/// Why a byte-level decode of a varint, a header or a directory failed.
#[derive(Debug, Clone, Copy, PartialEq, Eq, Structural)]
pub enum DecodeError {
    /// The cursor stepped past the end of the buffer.
    OutOfBounds,
    /// A varint kept its continuation bit set past the maximum width of ten bytes.
    VarintTooLong,
    /// The buffer does not begin with the PMTiles magic number.
    BadMagic,
    /// The archive declares a spec version this reader does not handle.
    UnsupportedVersion { got: u8 },
    /// Fewer bytes were supplied than the fixed-size header needs.
    Truncated,
    /// The decoded structure breaks a directory invariant.
    Malformed,
}

/// A failed attempt to store bytes in a cache; callers treat it as a warning.
#[derive(Debug)]
pub enum CacheError {
    SetError(String),
}

/// A failure reported by a blob fetcher.
#[derive(Debug)]
pub enum FetcherError {
    NotFound(),
    S3Error(String),
    Other(String),
}

/// Everything that can go wrong while answering a tile, header or metadata request.
#[derive(Debug)]
pub enum PMTilesError {
    /// The requested x or y lies outside the zoom level's grid.
    OutOfBounds(),
    /// The requested zoom level lies outside what the archive serves.
    OutOfBoundsZ(),
    /// The archive, tile or directory entry is absent.
    NotFound(Option<String>),
    BadRequest(String),
    Internal(String),
    /// The archive bytes do not form a valid PMTiles structure.
    Malformed(DecodeError),
    MetadataError(String),
    CacheError(CacheError),
}

impl PMTilesError {
    /// Lift a fetcher failure into the error space of the archive reader.
    pub fn from_fetcher(err: FetcherError) -> (r: PMTilesError)
        ensures
            r == spec_from_fetcher(err),
    {
        match err {
            FetcherError::NotFound() => PMTilesError::NotFound(None),
            FetcherError::S3Error(msg) => PMTilesError::BadRequest(msg),
            FetcherError::Other(msg) => PMTilesError::Internal(msg),
        }
    }
}

/// The value `PMTilesError::from_fetcher` returns for each fetcher failure.
pub open spec fn spec_from_fetcher(err: FetcherError) -> PMTilesError {
    match err {
        FetcherError::NotFound() => PMTilesError::NotFound(None),
        FetcherError::S3Error(msg) => PMTilesError::BadRequest(msg),
        FetcherError::Other(msg) => PMTilesError::Internal(msg),
    }
}

} // verus!
