use pmtiles::compress::{decompress, Compression};
use pmtiles::directory::decode_entries;
use pmtiles::error::DecodeError;
use pmtiles::models::Headers;
use pmtiles::varint::encode_varint;

fn put_u64(buf: &mut Vec<u8>, v: u64) {
    buf.extend_from_slice(&v.to_le_bytes());
}

fn put_i32(buf: &mut Vec<u8>, v: i32) {
    buf.extend_from_slice(&v.to_le_bytes());
}

#[allow(clippy::too_many_arguments)]
fn build_header(
    root_off: u64,
    root_len: u64,
    json_off: u64,
    json_len: u64,
    leaf_off: u64,
    leaf_len: u64,
    tile_off: u64,
    tile_len: u64,
    counts: u64,
    min_zoom: u8,
    max_zoom: u8,
) -> Vec<u8> {
    let mut h: Vec<u8> = Vec::new();
    h.extend_from_slice(&0x4d50u16.to_le_bytes());
    h.extend_from_slice(&[0u8; 5]);
    h.push(3); // spec version
    put_u64(&mut h, root_off);
    put_u64(&mut h, root_len);
    put_u64(&mut h, json_off);
    put_u64(&mut h, json_len);
    put_u64(&mut h, leaf_off);
    put_u64(&mut h, leaf_len);
    put_u64(&mut h, tile_off);
    put_u64(&mut h, tile_len);
    put_u64(&mut h, counts); // addressed tiles
    put_u64(&mut h, counts); // tile entries
    put_u64(&mut h, counts); // tile contents
    h.push(1); // clustered
    h.push(1); // internal compression: none
    h.push(1); // tile compression: none
    h.push(1); // tile type
    h.push(min_zoom);
    h.push(max_zoom);
    put_i32(&mut h, -1800000000); // min lon
    put_i32(&mut h, -850511300); // min lat
    put_i32(&mut h, 1800000000); // max lon
    put_i32(&mut h, 850511300); // max lat
    h.push(7); // center zoom
    put_i32(&mut h, 245000000); // center lon
    put_i32(&mut h, -70000000); // center lat
    assert_eq!(h.len(), 127);
    h
}

#[test]
fn test_header_parse_fields() {
    let bytes = build_header(127, 50, 177, 60, 237, 0, 237, 1000, 28, 0, 14);
    let h = Headers::from_bytes(&bytes).unwrap();
    assert_eq!(h.spec_version, 3);
    assert_eq!(h.root_directory_offset, 127);
    assert_eq!(h.root_directory_length, 50);
    assert_eq!(h.json_metadata_offset, 177);
    assert_eq!(h.json_metadata_length, 60);
    assert_eq!(h.leaf_directory_offset, 237);
    assert_eq!(h.leaf_directory_length, 0);
    assert_eq!(h.tile_data_offset, 237);
    assert_eq!(h.tile_data_length, 1000);
    assert_eq!(h.num_addressed_tiles, 28);
    assert_eq!(h.num_tile_entries, 28);
    assert_eq!(h.num_tile_contents, 28);
    assert_eq!(h.clustered, 1);
    assert_eq!(h.internal_compression, 1);
    assert_eq!(h.tile_compression, 1);
    assert_eq!(h.tile_type, 1);
    assert_eq!(h.min_zoom, 0);
    assert_eq!(h.max_zoom, 14);
    assert_eq!(h.min_lon_e7, -1800000000);
    assert_eq!(h.min_lat_e7, -850511300);
    assert_eq!(h.max_lon_e7, 1800000000);
    assert_eq!(h.max_lat_e7, 850511300);
    assert_eq!(h.center_zoom, 7);
    assert_eq!(h.center_lon_e7, 245000000);
    assert_eq!(h.center_lat_e7, -70000000);
    assert!(h.etag.is_none());
}

#[test]
fn test_header_rejects_bad_magic() {
    let mut bytes = build_header(127, 50, 177, 60, 237, 0, 237, 1000, 28, 0, 14);
    bytes[0] = 0x4e;
    assert!(matches!(
        Headers::from_bytes(&bytes),
        Err(DecodeError::BadMagic)
    ));
}

#[test]
fn test_header_rejects_wrong_version() {
    let mut bytes = build_header(127, 50, 177, 60, 237, 0, 237, 1000, 28, 0, 14);
    bytes[7] = 2;
    assert!(matches!(
        Headers::from_bytes(&bytes),
        Err(DecodeError::UnsupportedVersion { got: 2 })
    ));
}

#[test]
fn test_header_rejects_truncated() {
    let bytes = build_header(127, 50, 177, 60, 237, 0, 237, 1000, 28, 0, 14);
    assert!(matches!(
        Headers::from_bytes(&bytes[..126]),
        Err(DecodeError::Truncated)
    ));
}

/// Encode a directory as the four varint streams, with explicit offsets
/// (written as offset + 1).
fn build_directory(entries: &[(u64, u64, u64, u64)]) -> Vec<u8> {
    let mut out = encode_varint(entries.len() as u64);
    let mut last = 0u64;
    for e in entries {
        out.extend_from_slice(&encode_varint(e.0 - last));
        last = e.0;
    }
    for e in entries {
        out.extend_from_slice(&encode_varint(e.3));
    }
    for e in entries {
        out.extend_from_slice(&encode_varint(e.2));
    }
    for e in entries {
        out.extend_from_slice(&encode_varint(e.1 + 1));
    }
    out
}

#[test]
fn test_directory_decode() {
    // (tile_id, offset, length, run_length)
    let rows = [(0u64, 0u64, 100u64, 1u64), (4, 100, 50, 2), (10, 150, 7, 0)];
    let bytes = build_directory(&rows);
    let entries = decode_entries(&bytes).unwrap();
    assert_eq!(entries.len(), 3);
    for (i, row) in rows.iter().enumerate() {
        assert_eq!(entries[i].tile_id, row.0);
        assert_eq!(entries[i].offset, row.1);
        assert_eq!(entries[i].length, row.2);
        assert_eq!(entries[i].run_length, row.3);
    }
    // decoded ids grow strictly
    for i in 1..entries.len() {
        assert!(entries[i - 1].tile_id < entries[i].tile_id);
    }
}

#[test]
fn test_directory_decode_packed_offsets() {
    // zero in the offset stream means: right behind the previous row
    let mut out = encode_varint(2);
    out.extend_from_slice(&encode_varint(5)); // id 5
    out.extend_from_slice(&encode_varint(2)); // id 7
    out.extend_from_slice(&encode_varint(1)); // runs
    out.extend_from_slice(&encode_varint(1));
    out.extend_from_slice(&encode_varint(30)); // lengths
    out.extend_from_slice(&encode_varint(12));
    out.extend_from_slice(&encode_varint(8)); // offset 7
    out.extend_from_slice(&encode_varint(0)); // packed: 7 + 30 = 37
    let entries = decode_entries(&out).unwrap();
    assert_eq!(entries[0].offset, 7);
    assert_eq!(entries[1].offset, 37);
}

#[test]
fn test_directory_rejects_non_monotone_ids() {
    // a repeated tile id (delta zero past the first row) is malformed
    let mut out = encode_varint(2);
    out.extend_from_slice(&encode_varint(5));
    out.extend_from_slice(&encode_varint(0)); // id 5 again
    for _ in 0..6 {
        out.extend_from_slice(&encode_varint(1));
    }
    assert!(matches!(decode_entries(&out), Err(DecodeError::Malformed)));
}

#[test]
fn test_directory_rejects_truncated_stream() {
    let rows = [(0u64, 0u64, 100u64, 1u64), (4, 100, 50, 2)];
    let bytes = build_directory(&rows);
    assert!(decode_entries(&bytes[..bytes.len() - 1]).is_err());
}

#[test]
fn test_decompress_passthrough() {
    let data = [1u8, 2, 3, 4];
    let out = decompress(&data, Compression::NoCompression).unwrap();
    assert_eq!(out, data.to_vec());
    let out = decompress(&data, Compression::Unknown).unwrap();
    assert_eq!(out, data.to_vec());
}

#[test]
fn test_decompress_gzip() {
    let compressed: Vec<u8> = vec![
        31, 139, 8, 0, 0, 0, 0, 0, 2, 255, 203, 72, 205, 201, 201, 87, 40, 200, 45, 201, 204, 73,
        45, 6, 0, 130, 39, 249, 130, 13, 0, 0, 0,
    ];
    let out = decompress(&compressed, Compression::Gzip).unwrap();
    assert_eq!(out, b"hello pmtiles".to_vec());
    // garbage is rejected, not passed through
    assert!(decompress(&[1, 2, 3], Compression::Gzip).is_err());
}

#[test]
fn test_decompress_brotli() {
    let compressed: Vec<u8> = vec![0x0b, 0x00, 0x80, 0x58, 0x03];
    let out = decompress(&compressed, Compression::Brotli).unwrap();
    assert_eq!(out, b"X".to_vec());
}

#[test]
fn test_decompress_zstd() {
    let payload = b"a zstd round trip through the real codec".to_vec();
    let compressed = zstd::encode_all(payload.as_slice(), 3).unwrap();
    assert_ne!(compressed, payload);
    let out = decompress(&compressed, Compression::Zstd).unwrap();
    assert_eq!(out, payload);
    assert!(decompress(&[5, 6, 7], Compression::Zstd).is_err());
}
