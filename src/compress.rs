//! zlib compression of stored frames.
use vstd::prelude::*;
use std::io::{Read, Write};
use flate2::Compression;

verus! {

/// The zlib stream that compressing `data` at the fast level produces.
pub uninterp spec fn zlib_of(data: Seq<u8>) -> Seq<u8>;

/// What decompressing the zlib stream at the start of `data` yields, or
/// `None` when it is not a valid stream.
pub uninterp spec fn inflate_of(data: Seq<u8>) -> Option<Seq<u8>>;

/// Relies on `flate2::write::ZlibEncoder` with `Compression::fast()`: the
/// zlib stream of `data`. The encoder writes into a `Vec`, which raises no
/// I/O error, and its miniz_oxide backend fails only when misused, so the
/// error arms below are never taken.
#[verifier::external_body]
pub(crate) fn zlib_compress(data: &[u8]) -> (r: Vec<u8>)
    ensures
        r@ == zlib_of(data@),
{
    let mut encoder = flate2::write::ZlibEncoder::new(Vec::new(), Compression::fast());
    match encoder.write_all(data) {
        Ok(()) => encoder.finish().unwrap_or_default(),
        Err(_) => Vec::new(),
    }
}

/// Relies on `flate2::read::ZlibDecoder`: the bytes of the zlib stream at the
/// start of `data`, or `None` when the stream is corrupt or cut short. zlib is
/// lossless, so a stream that compressing `x` produced decodes to `x`.
#[verifier::external_body]
pub(crate) fn zlib_decompress(data: &[u8]) -> (r: Option<Vec<u8>>)
    ensures
        r matches Some(v) ==> inflate_of(data@) == Some(v@),
        r is None ==> inflate_of(data@) is None,
        forall|x: Seq<u8>| #[trigger] zlib_of(x) == data@ ==> (r is Some && r->Some_0@ == x),
{
    let mut out = Vec::new();
    match flate2::read::ZlibDecoder::new(data).read_to_end(&mut out) {
        Ok(_) => Some(out),
        Err(_) => None,
    }
}

} // verus!
