//! The zlib (DEFLATE) layer, provided by flate2.
use std::io::{Read, Write};
use vstd::prelude::*;

verus! {

/// What inflating the zlib stream `data` gives: `None` where it is not a valid stream.
pub uninterp spec fn zlib_decompressed(data: Seq<u8>) -> Option<Seq<u8>>;

/// The zlib stream that deflating `data` at compression level `level` gives.
pub uninterp spec fn zlib_compressed(data: Seq<u8>, level: u32) -> Seq<u8>;

/// Relies on flate2::read::ZlibDecoder (read to the end): inflates a zlib
/// stream; the result depends on the input bytes alone.
#[verifier::external_body]
pub(crate) fn zlib_decompress(data: &[u8]) -> (r: Option<Vec<u8>>)
    ensures
        match r {
            Some(v) => zlib_decompressed(data@) == Some(v@),
            None => zlib_decompressed(data@) is None,
        },
{
    let mut out = Vec::new();
    match flate2::read::ZlibDecoder::new(data).read_to_end(&mut out) {
        Ok(_) => Some(out),
        Err(_) => None,
    }
}

/// Relies on flate2::write::ZlibEncoder with flate2::Compression::new(level):
/// deflates `data` into a zlib stream that inflates back to `data`.
#[verifier::external_body]
pub(crate) fn zlib_compress(data: &[u8], level: u32) -> (r: Vec<u8>)
    requires
        level <= 9,
    ensures
        r@ == zlib_compressed(data@, level),
        zlib_decompressed(r@) == Some(data@),
{
    let mut enc = flate2::write::ZlibEncoder::new(Vec::new(), flate2::Compression::new(level));
    enc.write_all(data).unwrap();
    enc.finish().unwrap()
}

} // verus!
