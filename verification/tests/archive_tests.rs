use std::cell::RefCell;

use pmtiles::cache::Cache;
use pmtiles::error::{CacheError, FetcherError, PMTilesError};
use pmtiles::fetcher::Fetcher;
use pmtiles::models::TileEntry;
use pmtiles::pmtiles::{find_tile, get_headers, get_metadata, get_tile};
use pmtiles::varint::encode_varint;

/// Serves one in-memory archive and logs every ranged fetch.
struct MockFetcher {
    data: Vec<u8>,
    calls: RefCell<Vec<(usize, usize)>>,
}

impl MockFetcher {
    fn new(data: Vec<u8>) -> Self {
        MockFetcher {
            data,
            calls: RefCell::new(Vec::new()),
        }
    }

    fn fetch_count(&self) -> usize {
        self.calls.borrow().len()
    }

    fn prefix_fetches(&self) -> usize {
        self.calls.borrow().iter().filter(|c| c.0 == 0).count()
    }
}

impl Fetcher for MockFetcher {
    fn get_data_range(
        &self,
        _path: &str,
        offset: usize,
        length: usize,
    ) -> Result<(Vec<u8>, Option<String>), FetcherError> {
        self.calls.borrow_mut().push((offset, length));
        if offset >= self.data.len() {
            return Err(FetcherError::NotFound());
        }
        let end = usize::min(offset + length, self.data.len());
        Ok((self.data[offset..end].to_vec(), None))
    }

    fn get_data(&self, _path: &str) -> Result<(Vec<u8>, Option<String>), FetcherError> {
        self.calls.borrow_mut().push((0, self.data.len()));
        Ok((self.data.clone(), None))
    }
}

/// A working in-memory cache.
struct MockCache {
    entries: RefCell<Vec<(String, Vec<u8>)>>,
}

impl MockCache {
    fn new() -> Self {
        MockCache {
            entries: RefCell::new(Vec::new()),
        }
    }
}

impl Cache for MockCache {
    fn get(&self, key: &str) -> Option<Vec<u8>> {
        self.entries
            .borrow()
            .iter()
            .find(|e| e.0 == key)
            .map(|e| e.1.clone())
    }

    fn set(&self, key: &str, data: &[u8]) -> Result<(), CacheError> {
        let mut entries = self.entries.borrow_mut();
        entries.retain(|e| e.0 != key);
        entries.push((key.to_string(), data.to_vec()));
        Ok(())
    }
}

fn put_u64(buf: &mut Vec<u8>, v: u64) {
    buf.extend_from_slice(&v.to_le_bytes());
}

/// Encode a directory block: count, delta ids, runs, lengths, offsets.
fn build_directory(entries: &[(u64, u64, u64, u64)]) -> Vec<u8> {
    let mut out = encode_varint(entries.len() as u64);
    let mut last = 0u64;
    for e in entries {
        out.extend_from_slice(&encode_varint(e.0 - last));
        last = e.0;
    }
    for e in entries {
        out.extend_from_slice(&encode_varint(e.3));
    }
    for e in entries {
        out.extend_from_slice(&encode_varint(e.2));
    }
    for e in entries {
        out.extend_from_slice(&encode_varint(e.1 + 1));
    }
    out
}

/// Assemble a whole single-file archive with uncompressed blocks:
/// header, root directory, metadata, leaf region, tile region.
fn build_archive(
    root: &[(u64, u64, u64, u64)],
    metadata: &[u8],
    leaves: &[Vec<u8>],
    tiles: &[u8],
    max_zoom: u8,
) -> Vec<u8> {
    let root_dir = build_directory(root);
    let mut leaf_region: Vec<u8> = Vec::new();
    for leaf in leaves {
        leaf_region.extend_from_slice(leaf);
    }
    let root_off = 127u64;
    let json_off = root_off + root_dir.len() as u64;
    let leaf_off = json_off + metadata.len() as u64;
    let tile_off = leaf_off + leaf_region.len() as u64;

    let mut out: Vec<u8> = Vec::new();
    out.extend_from_slice(&0x4d50u16.to_le_bytes());
    out.extend_from_slice(&[0u8; 5]);
    out.push(3);
    put_u64(&mut out, root_off);
    put_u64(&mut out, root_dir.len() as u64);
    put_u64(&mut out, json_off);
    put_u64(&mut out, metadata.len() as u64);
    put_u64(&mut out, leaf_off);
    put_u64(&mut out, leaf_region.len() as u64);
    put_u64(&mut out, tile_off);
    put_u64(&mut out, tiles.len() as u64);
    put_u64(&mut out, root.len() as u64);
    put_u64(&mut out, root.len() as u64);
    put_u64(&mut out, root.len() as u64);
    out.push(1); // clustered
    out.push(1); // internal compression: none
    out.push(1); // tile compression: none
    out.push(1); // tile type
    out.push(0); // min zoom
    out.push(max_zoom);
    out.extend_from_slice(&[0u8; 16]); // bounds
    out.push(0); // center zoom
    out.extend_from_slice(&[0u8; 8]); // center
    assert_eq!(out.len(), 127);
    out.extend_from_slice(&root_dir);
    out.extend_from_slice(metadata);
    out.extend_from_slice(&leaf_region);
    out.extend_from_slice(tiles);
    out
}

/// An archive with two tiles straight in the root directory:
/// (0,0,0) of 11 bytes and (1,1,0) = id 4 of 7 bytes.
fn flat_archive() -> Vec<u8> {
    let tiles: Vec<u8> = vec![7u8; 11].into_iter().chain(vec![9u8; 7]).collect();
    build_archive(
        &[(0, 0, 11, 1), (4, 11, 7, 1)],
        b"{\"format\":\"pbf\",\"minzoom\":\"0\",\"maxzoom\":\"14\"}",
        &[],
        &tiles,
        14,
    )
}

#[test]
fn test_get_headers() {
    let fetcher = MockFetcher::new(flat_archive());
    let (headers, entries) =
        get_headers::<MockFetcher, MockCache>("test.pmtiles", &fetcher, None).unwrap();
    assert_eq!(headers.num_addressed_tiles, 2);
    assert_eq!(headers.num_tile_contents, 2);
    assert_eq!(headers.num_tile_entries, 2);
    assert_eq!(entries.len(), 2);
    assert_eq!(entries[0].tile_id, 0);
    assert_eq!(entries[1].tile_id, 4);
}

#[test]
fn test_get_metadata() {
    let fetcher = MockFetcher::new(flat_archive());
    let (_, metadata) =
        get_metadata::<MockFetcher, MockCache>("test.pmtiles", &fetcher, None).unwrap();
    assert_eq!(metadata.get("format").unwrap().as_str().unwrap(), "pbf");
    assert_eq!(metadata.get("minzoom").unwrap().as_str().unwrap(), "0");
    assert_eq!(metadata.get("maxzoom").unwrap().as_str().unwrap(), "14");
}

#[test]
fn test_get_tile() {
    let fetcher = MockFetcher::new(flat_archive());
    let data =
        get_tile::<MockFetcher, MockCache>(0, 0, 0, "test.pmtiles", &fetcher, None).unwrap();
    assert_eq!(data, vec![7u8; 11]);
    let data =
        get_tile::<MockFetcher, MockCache>(1, 1, 0, "test.pmtiles", &fetcher, None).unwrap();
    assert_eq!(data, vec![9u8; 7]);
}

#[test]
fn test_get_tile_not_found() {
    let fetcher = MockFetcher::new(flat_archive());
    // (1, 0, 0) is tile id 1: between the two entries, covered by neither
    let r = get_tile::<MockFetcher, MockCache>(1, 0, 0, "test.pmtiles", &fetcher, None);
    assert!(matches!(r, Err(PMTilesError::NotFound(_))));
}

#[test]
fn test_get_tile_out_of_zoom_range() {
    let fetcher = MockFetcher::new(flat_archive());
    let r = get_tile::<MockFetcher, MockCache>(20, 0, 0, "test.pmtiles", &fetcher, None);
    assert!(matches!(r, Err(PMTilesError::OutOfBoundsZ())));
}

/// An archive whose root points at a chain of leaf directories; the last
/// leaf holds the tile. `depth` counts the leaf directories.
fn leaf_chain_archive(depth: usize) -> Vec<u8> {
    let payload: Vec<u8> = vec![42u8; 13];
    // Leaf directories are laid out one after another; sizes must be known
    // up front, so build the last one first and note that every directory
    // here has the same single-entry shape and so the same encoded size.
    let tile_leaf = build_directory(&[(4, 0, 13, 1)]);
    let size = tile_leaf.len() as u64;
    let mut leaves: Vec<Vec<u8>> = Vec::new();
    for i in 0..depth {
        if i + 1 == depth {
            leaves.push(tile_leaf.clone());
        } else {
            // a leaf pointer to the next block in the leaf region
            let next_off = (i as u64 + 1) * size;
            let pointer = build_directory(&[(4, next_off, size, 0)]);
            assert_eq!(pointer.len() as u64, size);
            leaves.push(pointer);
        }
    }
    build_archive(
        &[(4, 0, size, 0)],
        b"{}",
        &leaves,
        &payload,
        14,
    )
}

#[test]
fn test_leaf_directories_resolve() {
    let fetcher = MockFetcher::new(leaf_chain_archive(1));
    let data =
        get_tile::<MockFetcher, MockCache>(1, 1, 0, "leaf.pmtiles", &fetcher, None).unwrap();
    assert_eq!(data, vec![42u8; 13]);
}

#[test]
fn test_leaf_recursion_fetch_bound() {
    // the deepest resolvable chain: root plus three leaf hops, then the tile
    let fetcher = MockFetcher::new(leaf_chain_archive(3));
    let data =
        get_tile::<MockFetcher, MockCache>(1, 1, 0, "leaf.pmtiles", &fetcher, None).unwrap();
    assert_eq!(data, vec![42u8; 13]);
    // one prefix fetch plus at most four body fetches
    assert!(fetcher.fetch_count() <= 5);
    assert_eq!(fetcher.fetch_count(), 5);
}

#[test]
fn test_leaf_recursion_gives_up_past_depth_limit() {
    // a chain that still points at another leaf when the walk stops
    let fetcher = MockFetcher::new(leaf_chain_archive(5));
    let r = get_tile::<MockFetcher, MockCache>(1, 1, 0, "leaf.pmtiles", &fetcher, None);
    assert!(matches!(r, Err(PMTilesError::NotFound(_))));
    assert!(fetcher.fetch_count() <= 5);
}

#[test]
fn test_cache_idempotence() {
    let fetcher = MockFetcher::new(flat_archive());
    let cache = MockCache::new();
    let first =
        get_tile(0, 0, 0, "cached.pmtiles", &fetcher, Some(&cache)).unwrap();
    let after_first = fetcher.fetch_count();
    assert_eq!(fetcher.prefix_fetches(), 1);
    let second =
        get_tile(0, 0, 0, "cached.pmtiles", &fetcher, Some(&cache)).unwrap();
    assert_eq!(first, second);
    // the second call fetches at most the tile body, and no prefix
    assert!(fetcher.fetch_count() - after_first <= 1);
    assert_eq!(fetcher.prefix_fetches(), 1);
}

#[test]
fn test_metadata_cache() {
    let fetcher = MockFetcher::new(flat_archive());
    let cache = MockCache::new();
    let (_, first) = get_metadata("m.pmtiles", &fetcher, Some(&cache)).unwrap();
    let count_after_first = fetcher.fetch_count();
    let (_, second) = get_metadata("m.pmtiles", &fetcher, Some(&cache)).unwrap();
    assert_eq!(first, second);
    // both the prefix and the decompressed metadata come from the cache
    assert_eq!(fetcher.fetch_count(), count_after_first);
}

#[test]
fn test_metadata_rejects_bad_json() {
    let fetcher = MockFetcher::new(build_archive(
        &[(0, 0, 4, 1)],
        b"this is not json",
        &[],
        &[1, 2, 3, 4],
        14,
    ));
    let r = get_metadata::<MockFetcher, MockCache>("bad.pmtiles", &fetcher, None);
    assert!(matches!(r, Err(PMTilesError::MetadataError(_))));
}

#[test]
fn test_find_tile_direct() {
    let entries = [
        TileEntry {
            tile_id: 1,
            offset: 0,
            length: 10,
            run_length: 2,
        },
        TileEntry {
            tile_id: 10,
            offset: 10,
            length: 5,
            run_length: 0,
        },
    ];
    // (1,0,0) is id 1: covered by the first run
    let e = find_tile(1, 0, 0, &entries).unwrap();
    assert_eq!(e.tile_id, 1);
    // (1,0,1) is id 2: still inside the run of length 2
    let e = find_tile(1, 0, 1, &entries).unwrap();
    assert_eq!(e.tile_id, 1);
    // (1,1,1) is id 3: past the run, before the leaf pointer
    assert!(matches!(
        find_tile(1, 1, 1, &entries),
        Err(PMTilesError::NotFound(_))
    ));
    // (2,3,0) is id 20: the leaf pointer at id 10 governs everything above it
    let e = find_tile(2, 3, 0, &entries).unwrap();
    assert_eq!(e.tile_id, 10);
    assert_eq!(e.run_length, 0);
    // id 0 sits below every entry
    assert!(matches!(
        find_tile(0, 0, 0, &entries),
        Err(PMTilesError::NotFound(_))
    ));
    // an empty directory has nothing
    assert!(matches!(
        find_tile(0, 0, 0, &[]),
        Err(PMTilesError::NotFound(_))
    ));
}
