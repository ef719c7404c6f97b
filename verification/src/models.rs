use vstd::arithmetic::power::pow;
use vstd::prelude::*;

use crate::error::DecodeError;

verus! {

/// The fixed-size preamble of a PMTiles v3 archive takes this many bytes.
pub const HEADER_SIZE_BYTES: usize = 127;

/// One row of a PMTiles directory: a terminal tile entry when
/// `run_length > 0`, a pointer into the leaf-directory region when
/// `run_length == 0`.
#[derive(Debug, Clone, Copy, PartialEq, Eq, Structural)]
pub struct TileEntry {
    pub tile_id: u64,
    pub offset: u64,
    pub length: u64,
    pub run_length: u64,
}

/// The archive preamble. Coordinates are kept as they stand on disk:
/// signed 32-bit fixed-point values in units of 1e-7 degrees.
#[derive(Debug, Clone)]
pub struct Headers {
    pub spec_version: u8,
    pub root_directory_offset: u64,
    pub root_directory_length: u64,
    pub json_metadata_offset: u64,
    pub json_metadata_length: u64,
    pub leaf_directory_offset: u64,
    pub leaf_directory_length: u64,
    pub tile_data_offset: u64,
    pub tile_data_length: u64,
    pub num_addressed_tiles: u64,
    pub num_tile_contents: u64,
    pub clustered: u8,
    pub internal_compression: u8,
    pub tile_compression: u8,
    pub tile_type: u8,
    pub min_zoom: u8,
    pub max_zoom: u8,
    pub num_tile_entries: u64,
    pub min_lon_e7: i32,
    pub min_lat_e7: i32,
    pub max_lon_e7: i32,
    pub max_lat_e7: i32,
    pub center_zoom: u8,
    pub center_lon_e7: i32,
    pub center_lat_e7: i32,
    pub etag: Option<String>,
}

/// The little-endian value of `n` bytes starting at `off`.
pub open spec fn le_bytes(data: Seq<u8>, off: int, n: int) -> int
    decreases n,
{
    if n <= 0 {
        0
    } else {
        data[off] + 0x100 * le_bytes(data, off + 1, n - 1)
    }
}

/// A 32-bit little-endian field read back as a signed two's complement value.
pub open spec fn le_i32(data: Seq<u8>, off: int) -> int {
    let u = le_bytes(data, off, 4);
    if u < 0x8000_0000 {
        u
    } else {
        u - 0x1_0000_0000
    }
}

/// What parsing a buffer as an archive preamble yields: the header whose
/// fields stand at the offsets the format fixes, or why the buffer is no
/// valid preamble.
pub open spec fn spec_parse_headers(data: Seq<u8>) -> Result<Headers, DecodeError> {
    if data.len() < 127 {
        Err(DecodeError::Truncated)
    } else if le_bytes(data, 0, 2) != 0x4d50 {
        Err(DecodeError::BadMagic)
    } else if data[7] != 3 {
        Err(DecodeError::UnsupportedVersion { got: data[7] })
    } else {
        Ok(
            Headers {
                spec_version: data[7],
                root_directory_offset: le_bytes(data, 8, 8) as u64,
                root_directory_length: le_bytes(data, 16, 8) as u64,
                json_metadata_offset: le_bytes(data, 24, 8) as u64,
                json_metadata_length: le_bytes(data, 32, 8) as u64,
                leaf_directory_offset: le_bytes(data, 40, 8) as u64,
                leaf_directory_length: le_bytes(data, 48, 8) as u64,
                tile_data_offset: le_bytes(data, 56, 8) as u64,
                tile_data_length: le_bytes(data, 64, 8) as u64,
                num_addressed_tiles: le_bytes(data, 72, 8) as u64,
                num_tile_entries: le_bytes(data, 80, 8) as u64,
                num_tile_contents: le_bytes(data, 88, 8) as u64,
                clustered: data[96],
                internal_compression: data[97],
                tile_compression: data[98],
                tile_type: data[99],
                min_zoom: data[100],
                max_zoom: data[101],
                min_lon_e7: le_i32(data, 102) as i32,
                min_lat_e7: le_i32(data, 106) as i32,
                max_lon_e7: le_i32(data, 110) as i32,
                max_lat_e7: le_i32(data, 114) as i32,
                center_zoom: data[118],
                center_lon_e7: le_i32(data, 119) as i32,
                center_lat_e7: le_i32(data, 123) as i32,
                etag: None,
            },
        )
    }
}

/// The powers of 256 the byte readers lean on, written out.
proof fn lemma_pow256_table()
    ensures
        pow(0x100, 0) == 1,
        pow(0x100, 1) == 0x100,
        pow(0x100, 2) == 0x1_0000,
        pow(0x100, 4) == 0x1_0000_0000,
        pow(0x100, 8) == 0x1_0000_0000_0000_0000,
{
    reveal_with_fuel(pow, 9);
}

proof fn lemma_le_bytes_bound(data: Seq<u8>, off: int, n: int)
    requires
        0 <= n,
    ensures
        0 <= le_bytes(data, off, n) < pow(0x100, n as nat),
    decreases n,
{
    if n == 0 {
        assert(pow(0x100, 0) == 1) by {
            vstd::arithmetic::power::lemma_pow0(0x100);
        }
    } else {
        lemma_le_bytes_bound(data, off + 1, n - 1);
        assert(pow(0x100, n as nat) == 0x100 * pow(0x100, (n - 1) as nat)) by {
            reveal(pow);
        }
        assert(0x100 * le_bytes(data, off + 1, n - 1) <= 0x100 * (pow(0x100, (n - 1) as nat)
            - 1)) by (nonlinear_arith)
            requires
                le_bytes(data, off + 1, n - 1) <= pow(0x100, (n - 1) as nat) - 1,
        ;
    }
}

/// Read `n` little-endian bytes at `off` into one unsigned value.
#[verifier::loop_isolation(false)]
fn read_le(data: &[u8], off: usize, n: usize) -> (r: u64)
    requires
        n <= 8,
        off + n <= data@.len(),
    ensures
        r as int == le_bytes(data@, off as int, n as int),
{
    let len: usize = data.len();
    let mut r: u64 = 0;
    let mut i: usize = n;
    while i > 0
        invariant
            0 <= i <= n,
            r as int == le_bytes(data@, off + i, n - i),
            r < 0x1_0000_0000_0000_0000,
        decreases i,
    {
        proof {
            lemma_le_bytes_bound(data@, off + i, n - i);
            assert(pow(0x100, (n - i) as nat) <= pow(0x100, 7)) by {
                vstd::arithmetic::power::lemma_pow_increases(0x100, (n - i) as nat, 7);
            }
            assert(pow(0x100, 7) == 0x100_0000_0000_0000) by {
                reveal_with_fuel(pow, 8);
            }
        }
        i = i - 1;
        r = r * 0x100 + (data[off + i] as u64);
    }
    r
}

/// Read a 32-bit little-endian field as a signed value.
fn read_i32_le(data: &[u8], off: usize) -> (r: i32)
    requires
        off + 4 <= data@.len(),
    ensures
        r as int == le_i32(data@, off as int),
{
    let u: u64 = read_le(data, off, 4);
    proof {
        lemma_le_bytes_bound(data@, off as int, 4);
        lemma_pow256_table();
    }
    if u < 0x8000_0000 {
        u as i32
    } else {
        ((u as i64) - 0x1_0000_0000) as i32
    }
}

impl Headers {
    /// Parse the fixed 127-byte preamble: check the magic number and the
    /// spec version, then read every field at its fixed offset.
    pub fn from_bytes(v: &[u8]) -> (r: Result<Headers, DecodeError>)
        ensures
            r == spec_parse_headers(v@),
    {
        if v.len() < HEADER_SIZE_BYTES {
            return Err(DecodeError::Truncated);
        }
        let magic: u64 = read_le(v, 0, 2);
        if magic != 0x4d50 {
            return Err(DecodeError::BadMagic);
        }
        let spec_version: u8 = v[7];
        if spec_version != 3 {
            return Err(DecodeError::UnsupportedVersion { got: spec_version });
        }
        proof {
            lemma_le_bytes_bound(v@, 8, 8);
            lemma_le_bytes_bound(v@, 16, 8);
            lemma_le_bytes_bound(v@, 24, 8);
            lemma_le_bytes_bound(v@, 32, 8);
            lemma_le_bytes_bound(v@, 40, 8);
            lemma_le_bytes_bound(v@, 48, 8);
            lemma_le_bytes_bound(v@, 56, 8);
            lemma_le_bytes_bound(v@, 64, 8);
            lemma_le_bytes_bound(v@, 72, 8);
            lemma_le_bytes_bound(v@, 80, 8);
            lemma_le_bytes_bound(v@, 88, 8);
            lemma_pow256_table();
        }
        Ok(
            Headers {
                spec_version,
                root_directory_offset: read_le(v, 8, 8),
                root_directory_length: read_le(v, 16, 8),
                json_metadata_offset: read_le(v, 24, 8),
                json_metadata_length: read_le(v, 32, 8),
                leaf_directory_offset: read_le(v, 40, 8),
                leaf_directory_length: read_le(v, 48, 8),
                tile_data_offset: read_le(v, 56, 8),
                tile_data_length: read_le(v, 64, 8),
                num_addressed_tiles: read_le(v, 72, 8),
                num_tile_entries: read_le(v, 80, 8),
                num_tile_contents: read_le(v, 88, 8),
                clustered: v[96],
                internal_compression: v[97],
                tile_compression: v[98],
                tile_type: v[99],
                min_zoom: v[100],
                max_zoom: v[101],
                min_lon_e7: read_i32_le(v, 102),
                min_lat_e7: read_i32_le(v, 106),
                max_lon_e7: read_i32_le(v, 110),
                max_lat_e7: read_i32_le(v, 114),
                center_zoom: v[118],
                center_lon_e7: read_i32_le(v, 119),
                center_lat_e7: read_i32_le(v, 123),
                etag: None,
            },
        )
    }
}

/// The little-endian bytes of `v`, `n` bytes wide.
pub open spec fn le_bytes_of(v: int, n: nat) -> Seq<u8>
    decreases n,
{
    if n == 0 {
        Seq::empty()
    } else {
        seq![(v % 0x100) as u8] + le_bytes_of(v / 0x100, (n - 1) as nat)
    }
}

/// The unsigned 32-bit cell that stores a signed fixed-point coordinate.
pub open spec fn i32_cell(x: int) -> int {
    if x >= 0 {
        x
    } else {
        x + 0x1_0000_0000
    }
}

/// The 127 bytes a conformant writer lays down for header `h`.
pub open spec fn spec_header_bytes(h: Headers) -> Seq<u8> {
    le_bytes_of(0x4d50, 2) + le_bytes_of(0, 5) + seq![h.spec_version] + le_bytes_of(
        h.root_directory_offset as int,
        8,
    ) + le_bytes_of(h.root_directory_length as int, 8) + le_bytes_of(
        h.json_metadata_offset as int,
        8,
    ) + le_bytes_of(h.json_metadata_length as int, 8) + le_bytes_of(
        h.leaf_directory_offset as int,
        8,
    ) + le_bytes_of(h.leaf_directory_length as int, 8) + le_bytes_of(
        h.tile_data_offset as int,
        8,
    ) + le_bytes_of(h.tile_data_length as int, 8) + le_bytes_of(
        h.num_addressed_tiles as int,
        8,
    ) + le_bytes_of(h.num_tile_entries as int, 8) + le_bytes_of(h.num_tile_contents as int, 8)
        + seq![
        h.clustered,
        h.internal_compression,
        h.tile_compression,
        h.tile_type,
        h.min_zoom,
        h.max_zoom,
    ] + le_bytes_of(i32_cell(h.min_lon_e7 as int), 4) + le_bytes_of(
        i32_cell(h.min_lat_e7 as int),
        4,
    ) + le_bytes_of(i32_cell(h.max_lon_e7 as int), 4) + le_bytes_of(
        i32_cell(h.max_lat_e7 as int),
        4,
    ) + seq![h.center_zoom] + le_bytes_of(i32_cell(h.center_lon_e7 as int), 4) + le_bytes_of(
        i32_cell(h.center_lat_e7 as int),
        4,
    )
}

proof fn lemma_le_bytes_of_len(v: int, n: nat)
    ensures
        le_bytes_of(v, n).len() == n,
    decreases n,
{
    if n > 0 {
        lemma_le_bytes_of_len(v / 0x100, (n - 1) as nat);
    }
}

/// Two byte ranges that hold the same bytes carry the same value.
proof fn lemma_le_bytes_congruent(d1: Seq<u8>, p1: int, d2: Seq<u8>, p2: int, n: int)
    requires
        forall|k: int| 0 <= k < n ==> #[trigger] d1[p1 + k] == d2[p2 + k],
    ensures
        le_bytes(d1, p1, n) == le_bytes(d2, p2, n),
    decreases n,
{
    if n > 0 {
        assert(d1[p1 + 0] == d2[p2 + 0]);
        assert forall|k: int| 0 <= k < n - 1 implies #[trigger] d1[(p1 + 1) + k] == d2[(p2 + 1)
            + k] by {
            assert(d1[p1 + (k + 1)] == d2[p2 + (k + 1)]);
        }
        lemma_le_bytes_congruent(d1, p1 + 1, d2, p2 + 1, n - 1);
    }
}

proof fn lemma_le_bytes_of_roundtrip(v: int, n: nat)
    requires
        0 <= v < pow(0x100, n),
    ensures
        le_bytes(le_bytes_of(v, n), 0, n as int) == v,
    decreases n,
{
    let e = le_bytes_of(v, n);
    if n == 0 {
        assert(pow(0x100, 0) == 1) by {
            vstd::arithmetic::power::lemma_pow0(0x100);
        }
    } else {
        assert(pow(0x100, n) == 0x100 * pow(0x100, (n - 1) as nat)) by {
            reveal(pow);
        }
        assert(v / 0x100 < pow(0x100, (n - 1) as nat)) by (nonlinear_arith)
            requires
                0 <= v < 0x100 * pow(0x100, (n - 1) as nat),
        ;
        lemma_le_bytes_of_roundtrip(v / 0x100, (n - 1) as nat);
        let tail = le_bytes_of(v / 0x100, (n - 1) as nat);
        lemma_le_bytes_of_len(v / 0x100, (n - 1) as nat);
        assert(e[0] == (v % 0x100) as u8);
        assert forall|k: int| 0 <= k < n - 1 implies #[trigger] e[1 + k] == tail[k] by {}
        lemma_le_bytes_congruent(e, 1, tail, 0, n as int - 1);
        vstd::arithmetic::div_mod::lemma_fundamental_div_mod(v, 0x100);
    }
}

/// Reading `n` bytes back where a writer put `v` yields `v`.
proof fn lemma_read_back(data: Seq<u8>, off: int, v: int, n: nat)
    requires
        0 <= off,
        off + n <= data.len(),
        0 <= v < pow(0x100, n),
        data.subrange(off, off + n) == le_bytes_of(v, n),
    ensures
        le_bytes(data, off, n as int) == v,
{
    let e = le_bytes_of(v, n);
    lemma_le_bytes_of_len(v, n);
    assert forall|k: int| 0 <= k < n implies #[trigger] data[off + k] == e[k] by {
        assert(data.subrange(off, off + n)[k] == data[off + k]);
    }
    lemma_le_bytes_congruent(data, off, e, 0, n as int);
    lemma_le_bytes_of_roundtrip(v, n);
}

/// Header layout round trip: the buffer a conformant writer produces for a
/// version-3 header parses back to that header, field for field; the
/// coordinates come back exactly because both sides carry the fixed-point
/// cell, not a floating approximation of it.
#[verifier::rlimit(60)]
pub proof fn lemma_header_round_trip(h: Headers)
    requires
        h.spec_version == 3,
        h.etag is None,
    ensures
        spec_header_bytes(h).len() == 127,
        spec_parse_headers(spec_header_bytes(h)) == Ok::<Headers, DecodeError>(h),
{
    let data = spec_header_bytes(h);
    lemma_pow256_table();
    assert(pow(0x100, 5) == 0x100_0000_0000) by {
        reveal_with_fuel(pow, 6);
    }
    lemma_le_bytes_of_len(0x4d50, 2);
    lemma_le_bytes_of_len(0, 5);
    lemma_le_bytes_of_len(h.root_directory_offset as int, 8);
    lemma_le_bytes_of_len(h.root_directory_length as int, 8);
    lemma_le_bytes_of_len(h.json_metadata_offset as int, 8);
    lemma_le_bytes_of_len(h.json_metadata_length as int, 8);
    lemma_le_bytes_of_len(h.leaf_directory_offset as int, 8);
    lemma_le_bytes_of_len(h.leaf_directory_length as int, 8);
    lemma_le_bytes_of_len(h.tile_data_offset as int, 8);
    lemma_le_bytes_of_len(h.tile_data_length as int, 8);
    lemma_le_bytes_of_len(h.num_addressed_tiles as int, 8);
    lemma_le_bytes_of_len(h.num_tile_entries as int, 8);
    lemma_le_bytes_of_len(h.num_tile_contents as int, 8);
    lemma_le_bytes_of_len(i32_cell(h.min_lon_e7 as int), 4);
    lemma_le_bytes_of_len(i32_cell(h.min_lat_e7 as int), 4);
    lemma_le_bytes_of_len(i32_cell(h.max_lon_e7 as int), 4);
    lemma_le_bytes_of_len(i32_cell(h.max_lat_e7 as int), 4);
    lemma_le_bytes_of_len(i32_cell(h.center_lon_e7 as int), 4);
    lemma_le_bytes_of_len(i32_cell(h.center_lat_e7 as int), 4);
    assert(data.len() == 127);

    assert(data.subrange(0, 2) =~= le_bytes_of(0x4d50, 2));
    lemma_read_back(data, 0, 0x4d50, 2);
    assert(data[7] == h.spec_version);

    assert(data.subrange(8, 16) =~= le_bytes_of(h.root_directory_offset as int, 8));
    lemma_read_back(data, 8, h.root_directory_offset as int, 8);
    assert(data.subrange(16, 24) =~= le_bytes_of(h.root_directory_length as int, 8));
    lemma_read_back(data, 16, h.root_directory_length as int, 8);
    assert(data.subrange(24, 32) =~= le_bytes_of(h.json_metadata_offset as int, 8));
    lemma_read_back(data, 24, h.json_metadata_offset as int, 8);
    assert(data.subrange(32, 40) =~= le_bytes_of(h.json_metadata_length as int, 8));
    lemma_read_back(data, 32, h.json_metadata_length as int, 8);
    assert(data.subrange(40, 48) =~= le_bytes_of(h.leaf_directory_offset as int, 8));
    lemma_read_back(data, 40, h.leaf_directory_offset as int, 8);
    assert(data.subrange(48, 56) =~= le_bytes_of(h.leaf_directory_length as int, 8));
    lemma_read_back(data, 48, h.leaf_directory_length as int, 8);
    assert(data.subrange(56, 64) =~= le_bytes_of(h.tile_data_offset as int, 8));
    lemma_read_back(data, 56, h.tile_data_offset as int, 8);
    assert(data.subrange(64, 72) =~= le_bytes_of(h.tile_data_length as int, 8));
    lemma_read_back(data, 64, h.tile_data_length as int, 8);
    assert(data.subrange(72, 80) =~= le_bytes_of(h.num_addressed_tiles as int, 8));
    lemma_read_back(data, 72, h.num_addressed_tiles as int, 8);
    assert(data.subrange(80, 88) =~= le_bytes_of(h.num_tile_entries as int, 8));
    lemma_read_back(data, 80, h.num_tile_entries as int, 8);
    assert(data.subrange(88, 96) =~= le_bytes_of(h.num_tile_contents as int, 8));
    lemma_read_back(data, 88, h.num_tile_contents as int, 8);

    assert(data[96] == h.clustered);
    assert(data[97] == h.internal_compression);
    assert(data[98] == h.tile_compression);
    assert(data[99] == h.tile_type);
    assert(data[100] == h.min_zoom);
    assert(data[101] == h.max_zoom);

    assert(data.subrange(102, 106) =~= le_bytes_of(i32_cell(h.min_lon_e7 as int), 4));
    lemma_read_back(data, 102, i32_cell(h.min_lon_e7 as int), 4);
    assert(data.subrange(106, 110) =~= le_bytes_of(i32_cell(h.min_lat_e7 as int), 4));
    lemma_read_back(data, 106, i32_cell(h.min_lat_e7 as int), 4);
    assert(data.subrange(110, 114) =~= le_bytes_of(i32_cell(h.max_lon_e7 as int), 4));
    lemma_read_back(data, 110, i32_cell(h.max_lon_e7 as int), 4);
    assert(data.subrange(114, 118) =~= le_bytes_of(i32_cell(h.max_lat_e7 as int), 4));
    lemma_read_back(data, 114, i32_cell(h.max_lat_e7 as int), 4);
    assert(data[118] == h.center_zoom);
    assert(data.subrange(119, 123) =~= le_bytes_of(i32_cell(h.center_lon_e7 as int), 4));
    lemma_read_back(data, 119, i32_cell(h.center_lon_e7 as int), 4);
    assert(data.subrange(123, 127) =~= le_bytes_of(i32_cell(h.center_lat_e7 as int), 4));
    lemma_read_back(data, 123, i32_cell(h.center_lat_e7 as int), 4);

    assert(spec_parse_headers(data) == Ok::<Headers, DecodeError>(h));
}

} // verus!
