//! zlib streams, as `flate2` reads and writes them for zlib-stored archive entries.

use std::io::{Read, Write};
use vstd::prelude::*;

verus! {

/// What `flate2`'s zlib decoder reads out of `raw` to its end: `None` when it reports an
/// error (not a zlib stream, or one cut short).
pub uninterp spec fn zlib_inflated(raw: Seq<u8>) -> Option<Seq<u8>>;

/// The zlib stream `flate2`'s encoder writes for `data` at the default compression level.
pub uninterp spec fn zlib_deflated(data: Seq<u8>) -> Seq<u8>;

/// `flate2::read::ZlibDecoder::new(raw).read_to_end(..)`. Claimed: the outcome depends on the
/// bytes alone and is `zlib_inflated(raw)`; what that is on given bytes is not stated.
#[verifier::external_body]
pub(crate) fn zlib_decompress(raw: &[u8]) -> (r: Option<Vec<u8>>)
    ensures
        r is None ==> zlib_inflated(raw@) is None,
        r matches Some(v) ==> zlib_inflated(raw@) == Some(v@),
{
    let mut decoder = flate2::read::ZlibDecoder::new(raw);
    let mut out = Vec::new();
    match decoder.read_to_end(&mut out) {
        Ok(_) => Some(out),
        Err(_) => None,
    }
}

/// `flate2::write::ZlibEncoder` over a `Vec` at `Compression::default()`: write all of `data`,
/// then `finish`. Claimed: the stream is `zlib_deflated(data)`, and the decoder reads `data`
/// back out of it. Writing into a `Vec` cannot fail, so no error is passed on.
#[verifier::external_body]
pub(crate) fn zlib_compress(data: &[u8]) -> (v: Vec<u8>)
    ensures
        v@ == zlib_deflated(data@),
        zlib_inflated(v@) == Some(data@),
{
    let mut encoder = flate2::write::ZlibEncoder::new(Vec::new(), flate2::Compression::default());
    let _ = encoder.write_all(data);
    encoder.finish().unwrap_or_default()
}

} // verus!
