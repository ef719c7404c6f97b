use std::io::Read;
use vstd::prelude::*;

use crate::error::{DecodeError, PMTilesError};

verus! {

/// How a PMTiles byte range is compressed, as one header byte encodes it.
#[derive(Debug, Clone, Copy, PartialEq, Eq, Structural)]
pub enum Compression {
    Unknown,
    NoCompression,
    Gzip,
    Brotli,
    Zstd,
}

/// The compression variant a header byte names; unrecognized bytes read as
/// unknown and pass data through untouched.
pub open spec fn spec_compression_from(value: u8) -> Compression {
    if value == 1 {
        Compression::NoCompression
    } else if value == 2 {
        Compression::Gzip
    } else if value == 3 {
        Compression::Brotli
    } else if value == 4 {
        Compression::Zstd
    } else {
        Compression::Unknown
    }
}

impl From<u8> for Compression {
    fn from(value: u8) -> (r: Compression) {
        match value {
            1 => Compression::NoCompression,
            2 => Compression::Gzip,
            3 => Compression::Brotli,
            4 => Compression::Zstd,
            _ => Compression::Unknown,
        }
    }
}

impl vstd::std_specs::convert::FromSpecImpl<u8> for Compression {
    open spec fn obeys_from_spec() -> bool {
        true
    }

    open spec fn from_spec(v: u8) -> Compression {
        spec_compression_from(v)
    }
}

/// What a gzip stream inflates to, when it inflates at all.
pub uninterp spec fn gzip_inflate(data: Seq<u8>) -> Option<Seq<u8>>;

/// What a brotli stream inflates to, when it inflates at all.
pub uninterp spec fn brotli_inflate(data: Seq<u8>) -> Option<Seq<u8>>;

/// What a zstd stream inflates to, when it inflates at all.
pub uninterp spec fn zstd_inflate(data: Seq<u8>) -> Option<Seq<u8>>;

/// Relies on zune_inflate's `DeflateDecoder::decode_gzip`: whether a gzip
/// stream inflates, and to what, depends on the bytes alone.
#[verifier::external_body]
fn gzip_decompress(data: &[u8]) -> (r: Option<Vec<u8>>)
    ensures
        r is Some <==> gzip_inflate(data@) is Some,
        r matches Some(v) ==> Some(v@) == gzip_inflate(data@),
{
    let mut decoder = zune_inflate::DeflateDecoder::new(data);
    decoder.decode_gzip().ok()
}

/// Relies on brotli_decompressor's `Decompressor`: whether a brotli stream
/// inflates, and to what, depends on the bytes alone.
#[verifier::external_body]
fn brotli_decompress(data: &[u8]) -> (r: Option<Vec<u8>>)
    ensures
        r is Some <==> brotli_inflate(data@) is Some,
        r matches Some(v) ==> Some(v@) == brotli_inflate(data@),
{
    let mut decoder = brotli_decompressor::Decompressor::new(data, 4096);
    let mut decompressed = Vec::with_capacity(data.len());
    match decoder.read_to_end(&mut decompressed) {
        Ok(_) => Some(decompressed),
        Err(_) => None,
    }
}

/// Relies on `zstd::decode_all`: whether a zstd stream inflates, and to
/// what, depends on the bytes alone.
#[verifier::external_body]
fn zstd_decompress(data: &[u8]) -> (r: Option<Vec<u8>>)
    ensures
        r is Some <==> zstd_inflate(data@) is Some,
        r matches Some(v) ==> Some(v@) == zstd_inflate(data@),
{
    zstd::decode_all(data).ok()
}

/// What inflating `data` under `compression` yields: unknown and
/// uncompressed data pass through unchanged.
pub open spec fn spec_inflate(data: Seq<u8>, compression: Compression) -> Option<Seq<u8>> {
    match compression {
        Compression::Unknown => Some(data),
        Compression::NoCompression => Some(data),
        Compression::Gzip => gzip_inflate(data),
        Compression::Brotli => brotli_inflate(data),
        Compression::Zstd => zstd_inflate(data),
    }
}

/// Inflate one archive byte range per the compression its header declares;
/// a stream its decoder rejects is malformed.
pub fn decompress(data: &[u8], compression: Compression) -> (r: Result<Vec<u8>, PMTilesError>)
    ensures
        r is Ok <==> spec_inflate(data@, compression) is Some,
        r matches Ok(v) ==> Some(v@) == spec_inflate(data@, compression),
{
    let out = match compression {
        Compression::Unknown => Some(vstd::slice::slice_to_vec(data)),
        Compression::NoCompression => Some(vstd::slice::slice_to_vec(data)),
        Compression::Gzip => gzip_decompress(data),
        Compression::Brotli => brotli_decompress(data),
        Compression::Zstd => zstd_decompress(data),
    };
    match out {
        Some(v) => Ok(v),
        None => Err(PMTilesError::Malformed(DecodeError::Malformed)),
    }
}

} // verus!
