use vstd::arithmetic::power2::pow2;
use vstd::prelude::*;
use vstd::string::StringExecFns;

use crate::cache::Cache;
use crate::compress::{decompress, spec_inflate, Compression};
use crate::directory::{decode_entries, entries_sorted, search_entries, spec_decode_directory,
    spec_find_entry};
use crate::error::{DecodeError, PMTilesError};
use crate::fetcher::Fetcher;
use crate::hilbert::{hilbert_d, tiles_per_level_spec, zxy_to_tile_id};
use crate::models::{Headers, TileEntry, HEADER_SIZE_BYTES};

verus! {

/// The prefix the reader fetches once per archive: the format guarantees
/// that the header and the whole root directory sit inside it.
pub const PREFIX_SIZE: usize = 16384;

/// The archive walk visits at most this many leaf directories per request.
pub const MAX_LEAF_DEPTH: usize = 4;

#[verifier::external_type_specification]
#[verifier::external_body]
pub struct ExValue(serde_json::Value);

/// Whether a byte string parses as JSON: a fact of the bytes alone.
pub uninterp spec fn json_decodes(data: Seq<u8>) -> bool;

/// Relies on serde_json::from_slice: whether bytes parse as a JSON value
/// depends on the bytes alone.
#[verifier::external_body]
fn parse_json(data: &[u8]) -> (r: Option<serde_json::Value>)
    ensures
        r is Some <==> json_decodes(data@),
{
    serde_json::from_slice(data).ok()
}

/// What decoding a directory out of a possibly compressed block yields.
pub open spec fn spec_get_entries(data: Seq<u8>, compression: Compression) -> Option<
    Seq<TileEntry>,
> {
    match spec_inflate(data, compression) {
        Some(raw) => spec_decode_directory(raw),
        None => None,
    }
}

/// Inflate a directory block and decode its rows.
pub fn get_entries(data: &[u8], compression: Compression) -> (r: Result<
    Vec<TileEntry>,
    PMTilesError,
>)
    ensures
        r is Ok <==> spec_get_entries(data@, compression) is Some,
        r matches Ok(v) ==> Some(v@) == spec_get_entries(data@, compression) && entries_sorted(
            v@,
        ),
{
    let decompressed = match decompress(data, compression) {
        Ok(v) => v,
        Err(e) => {
            return Err(e);
        },
    };
    match decode_entries(decompressed.as_slice()) {
        Ok(v) => Ok(v),
        Err(e) => Err(PMTilesError::Malformed(e)),
    }
}

/// Resolve (z, x, y) to the directory row governing its tile id: the
/// covering terminal entry, or the leaf pointer standing under the id.
pub fn find_tile<'a>(z: u64, x: u64, y: u64, entries: &'a [TileEntry]) -> (r: Result<
    &'a TileEntry,
    PMTilesError,
>)
    requires
        entries_sorted(entries@),
    ensures
        z > 26 ==> r == Err::<&'a TileEntry, PMTilesError>(PMTilesError::OutOfBoundsZ()),
        z <= 26 && (x >= pow2(z as nat) || y >= pow2(z as nat)) ==> r == Err::<
            &'a TileEntry,
            PMTilesError,
        >(PMTilesError::OutOfBounds()),
        z <= 26 && x < pow2(z as nat) && y < pow2(z as nat) ==> {
            let tid = tiles_per_level_spec(z as nat) + hilbert_d(z as nat, x as int, y as int);
            match spec_find_entry(entries@, tid) {
                Some(p) => (r matches Ok(e) && *e == entries@[p]),
                None => r == Err::<&'a TileEntry, PMTilesError>(PMTilesError::NotFound(None)),
            }
        },
{
    let tile_id = match zxy_to_tile_id(z, x, y) {
        Ok(v) => v,
        Err(e) => {
            return Err(e);
        },
    };
    match search_entries(entries, tile_id) {
        Some(k) => Ok(&entries[k]),
        None => Err(PMTilesError::NotFound(None)),
    }
}

/// Obtain an archive's header and root directory: from the cache when the
/// prefix is there, else by one ranged fetch whose bytes are offered to the
/// cache (a failed set is ignored). The header must parse and the root
/// directory must sit whole inside the prefix.
pub fn get_headers<T: Fetcher, C: Cache>(path: &str, client: &T, cache: Option<&C>) -> (r: Result<
    (Headers, Vec<TileEntry>),
    PMTilesError,
>)
    ensures
        r matches Ok(p) ==> {
            &&& p.0.spec_version == 3
            &&& entries_sorted(p.1@)
            &&& exists|data: Seq<u8>|
                crate::models::spec_parse_headers(data) == Ok::<Headers, DecodeError>(p.0)
            &&& exists|block: Seq<u8>|
                Some(p.1@) == #[trigger] spec_get_entries(
                    block,
                    crate::compress::spec_compression_from(p.0.internal_compression),
                )
        },
{
    let cache_hit = match cache {
        Some(c) => c.get(path),
        None => None,
    };
    let raw_data = match cache_hit {
        Some(cached) => cached,
        None => {
            let fetched = match client.get_data_range(path, 0, PREFIX_SIZE) {
                Ok(t) => t.0,
                Err(e) => {
                    return Err(PMTilesError::from_fetcher(e));
                },
            };
            match cache {
                Some(c) => {
                    // a cache that cannot hold the prefix is only a warning
                    let _ = c.set(path, fetched.as_slice());
                },
                None => {},
            }
            fetched
        },
    };
    if raw_data.len() < HEADER_SIZE_BYTES {
        return Err(PMTilesError::Malformed(DecodeError::Truncated));
    }
    let headers = match Headers::from_bytes(raw_data.as_slice()) {
        Ok(h) => h,
        Err(e) => {
            return Err(PMTilesError::Malformed(e));
        },
    };
    let off = headers.root_directory_offset;
    let dlen = headers.root_directory_length;
    let end = match off.checked_add(dlen) {
        Some(e) => e,
        None => {
            return Err(PMTilesError::Malformed(DecodeError::Malformed));
        },
    };
    if end > raw_data.len() as u64 {
        // the root directory must fit inside the fetched prefix
        return Err(PMTilesError::Malformed(DecodeError::Malformed));
    }
    let root = &raw_data.as_slice()[off as usize..end as usize];
    let entries = match get_entries(root, Compression::from(headers.internal_compression)) {
        Ok(v) => v,
        Err(e) => {
            return Err(e);
        },
    };
    proof {
        assert(crate::models::spec_parse_headers(raw_data@) == Ok::<Headers, DecodeError>(
            headers,
        ));
        assert(Some(entries@) == spec_get_entries(
            root@,
            crate::compress::spec_compression_from(headers.internal_compression),
        ));
    }
    Ok((headers, entries))
}

/// The cache key under which an archive's decompressed metadata lives.
fn metadata_cache_key(path: &str) -> (r: String)
    ensures
        r@ == path@ + "|metadata"@,
{
    let s = String::from_str(path);
    s.concat("|metadata")
}

/// Fetch the metadata block, inflate it per the archive's internal
/// compression, and offer the result to the cache (a failed set is ignored).
fn fetch_metadata<T: Fetcher, C: Cache>(
    path: &str,
    headers: &Headers,
    client: &T,
    cache: Option<&C>,
) -> (r: Result<Vec<u8>, PMTilesError>)
    ensures
        r matches Ok(v) ==> exists|raw: Seq<u8>|
            spec_inflate(
                raw,
                crate::compress::spec_compression_from(headers.internal_compression),
            ) == Some(v@),
{
    let key = metadata_cache_key(path);
    let off = headers.json_metadata_offset;
    let mlen = headers.json_metadata_length;
    if off > usize::MAX as u64 || mlen > usize::MAX as u64 {
        return Err(
            PMTilesError::Internal(
                String::from_str("metadata range does not fit this platform"),
            ),
        );
    }
    let fetched = match client.get_data_range(path, off as usize, mlen as usize) {
        Ok(t) => t.0,
        Err(e) => {
            return Err(PMTilesError::from_fetcher(e));
        },
    };
    let decompressed = match decompress(
        fetched.as_slice(),
        Compression::from(headers.internal_compression),
    ) {
        Ok(v) => v,
        Err(e) => {
            return Err(e);
        },
    };
    proof {
        assert(spec_inflate(
            fetched@,
            crate::compress::spec_compression_from(headers.internal_compression),
        ) == Some(decompressed@));
    }
    match cache {
        Some(c) => {
            let _ = c.set(key.as_str(), decompressed.as_slice());
        },
        None => {},
    }
    Ok(decompressed)
}

/// Obtain an archive's header and parsed JSON metadata, through the cache
/// when the metadata is there.
pub fn get_metadata<T: Fetcher, C: Cache>(path: &str, client: &T, cache: Option<&C>) -> (r: Result<
    (Headers, serde_json::Value),
    PMTilesError,
>)
    ensures
        r matches Ok(p) ==> p.0.spec_version == 3,
{
    let hr = match get_headers(path, client, cache) {
        Ok(t) => t,
        Err(e) => {
            return Err(e);
        },
    };
    let headers = hr.0;
    let key = metadata_cache_key(path);
    let raw = match cache {
        Some(c) => match c.get(key.as_str()) {
            Some(bytes) => bytes,
            None => match fetch_metadata(path, &headers, client, cache) {
                Ok(v) => v,
                Err(e) => {
                    return Err(e);
                },
            },
        },
        None => match fetch_metadata(path, &headers, client, cache) {
            Ok(v) => v,
            Err(e) => {
                return Err(e);
            },
        },
    };
    match parse_json(raw.as_slice()) {
        Some(v) => Ok((headers, v)),
        None => Err(
            PMTilesError::MetadataError(
                String::from_str("failed to deserialize tileset metadata"),
            ),
        ),
    }
}

/// Serve one tile: resolve its id through the root directory and at most
/// `MAX_LEAF_DEPTH` leaf directories, fetch the payload, and inflate it per
/// the archive's tile compression. Success implies the requested
/// coordinates lay on the requested zoom's grid.
#[verifier::loop_isolation(false)]
pub fn get_tile<T: Fetcher, C: Cache>(
    z: u64,
    x: u64,
    y: u64,
    path: &str,
    client: &T,
    cache: Option<&C>,
) -> (r: Result<Vec<u8>, PMTilesError>)
    ensures
        r is Ok ==> z <= 26 && x < pow2(z as nat) && y < pow2(z as nat),
{
    let hr = match get_headers(path, client, cache) {
        Ok(t) => t,
        Err(e) => {
            return Err(e);
        },
    };
    let headers = hr.0;
    let mut entries = hr.1;
    if z < headers.min_zoom as u64 || z > headers.max_zoom as u64 {
        return Err(PMTilesError::OutOfBoundsZ());
    }
    let tile_compression = Compression::from(headers.tile_compression);
    let mut offset: u64 = 0;
    let mut length: u64 = 0;
    let mut i: usize = 0;
    while i < MAX_LEAF_DEPTH
        invariant
            entries_sorted(entries@),
        decreases MAX_LEAF_DEPTH - i,
    {
        if i > 0 {
            // the previous round found a leaf pointer; fetch and decode it
            if offset > usize::MAX as u64 || length > usize::MAX as u64 {
                return Err(
                    PMTilesError::Internal(
                        String::from_str(
                            "leaf directory range does not fit this platform",
                        ),
                    ),
                );
            }
            let fetched = match client.get_data_range(path, offset as usize, length as usize) {
                Ok(t) => t.0,
                Err(e) => {
                    return Err(PMTilesError::from_fetcher(e));
                },
            };
            entries = match get_entries(
                fetched.as_slice(),
                Compression::from(headers.internal_compression),
            ) {
                Ok(v) => v,
                Err(e) => {
                    return Err(e);
                },
            };
        }
        let entry: TileEntry = match find_tile(z, x, y, entries.as_slice()) {
            Ok(e) => *e,
            Err(e) => {
                return Err(e);
            },
        };
        if entry.run_length > 0 {
            let toff = match headers.tile_data_offset.checked_add(entry.offset) {
                Some(v) => v,
                None => {
                    return Err(PMTilesError::Malformed(DecodeError::Malformed));
                },
            };
            if toff > usize::MAX as u64 || entry.length > usize::MAX as u64 {
                return Err(
                    PMTilesError::Internal(
                        String::from_str(
                            "tile range does not fit this platform",
                        ),
                    ),
                );
            }
            let tile_data = match client.get_data_range(
                path,
                toff as usize,
                entry.length as usize,
            ) {
                Ok(t) => t.0,
                Err(e) => {
                    return Err(PMTilesError::from_fetcher(e));
                },
            };
            return decompress(tile_data.as_slice(), tile_compression);
        }
        // A leaf pointer must land inside the leaf-directory region.
        let lend = match entry.offset.checked_add(entry.length) {
            Some(v) => v,
            None => {
                return Err(PMTilesError::Malformed(DecodeError::Malformed));
            },
        };
        if lend > headers.leaf_directory_length {
            return Err(PMTilesError::Malformed(DecodeError::Malformed));
        }
        offset = match headers.leaf_directory_offset.checked_add(entry.offset) {
            Some(v) => v,
            None => {
                return Err(PMTilesError::Malformed(DecodeError::Malformed));
            },
        };
        length = entry.length;
        i = i + 1;
    }
    Err(PMTilesError::NotFound(None))
}

} // verus!
