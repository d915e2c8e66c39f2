//! zlib compression and decompression, through the `miniz_oxide` crate.
//!
//! The DEFLATE transform itself is outside this library; its results are
//! named by the uninterpreted functions below, and the container's
//! contracts are stated over those names.

use vstd::prelude::*;

verus! {

/// The zlib-wrapped DEFLATE compression of a byte sequence at a level,
/// as `miniz_oxide::deflate::compress_to_vec_zlib` computes it.
pub uninterp spec fn zlib_deflate(data: Seq<u8>, level: u8) -> Seq<u8>;

/// The zlib-wrapped DEFLATE decompression of a byte sequence: the
/// decompressed bytes, or `None` when the input is not a valid zlib
/// stream, as `miniz_oxide::inflate::decompress_to_vec_zlib` computes it.
pub uninterp spec fn zlib_inflate(data: Seq<u8>) -> Option<Seq<u8>>;

/// Relies on `miniz_oxide::deflate::compress_to_vec_zlib`: the result
/// depends only on the input bytes and the level, and decompressing it
/// yields the input back (the round trip that defines a compressor).
#[verifier::external_body]
pub fn deflate_zlib(data: &Vec<u8>, level: u8) -> (r: Vec<u8>)
    ensures
        r@ == zlib_deflate(data@, level),
        zlib_inflate(r@) == Some(data@),
{
    miniz_oxide::deflate::compress_to_vec_zlib(data.as_slice(), level)
}

/// Relies on `miniz_oxide::inflate::decompress_to_vec_zlib`: succeeds
/// exactly on valid zlib streams, with a result that depends only on the
/// input bytes.
#[verifier::external_body]
pub fn inflate_zlib(data: &Vec<u8>) -> (r: Option<Vec<u8>>)
    ensures
        r is Some <==> zlib_inflate(data@) is Some,
        r is Some ==> r->0@ == zlib_inflate(data@)->Some_0,
{
    miniz_oxide::inflate::decompress_to_vec_zlib(data.as_slice()).ok()
}

} // verus!
