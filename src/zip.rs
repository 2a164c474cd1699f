//! The zlib stream that wraps every object on disk.
use crate::error::GitError;
use vstd::prelude::*;

verus! {

/// The name of the zlib stream that flate2 writes for a byte sequence at the default level,
/// where it succeeds.
pub uninterp spec fn zlib_compressed(data: Seq<u8>) -> Option<Seq<u8>>;

/// The name of what flate2's zlib decoder reads out of a byte sequence, where it succeeds.
pub uninterp spec fn zlib_decompressed(data: Seq<u8>) -> Option<Seq<u8>>;

/// Relies on flate2's `ZlibEncoder` at `Compression::default()`: the stream depends on the
/// input alone, and decoding it gives the input back.
#[verifier::external_body]
fn zlib_encode(data: &[u8]) -> (r: Option<Vec<u8>>)
    ensures
        match r {
            Some(v) => zlib_compressed(data@) == Some(v@),
            None => zlib_compressed(data@) is None,
        },
        r matches Some(v) ==> zlib_decompressed(v@) == Some(data@),
{
    let mut encoder = flate2::write::ZlibEncoder::new(Vec::new(), flate2::Compression::default());
    std::io::Write::write_all(&mut encoder, data).ok()?;
    encoder.finish().ok()
}

/// Relies on flate2's `ZlibDecoder` read to the end: what it yields depends on the input alone.
#[verifier::external_body]
fn zlib_decode(data: &[u8]) -> (r: Option<Vec<u8>>)
    ensures
        match r {
            Some(v) => zlib_decompressed(data@) == Some(v@),
            None => zlib_decompressed(data@) is None,
        },
{
    let mut decoder = flate2::read::ZlibDecoder::new(data);
    let mut out = Vec::new();
    std::io::Read::read_to_end(&mut decoder, &mut out).ok()?;
    Some(out)
}

/// Deflates `data` into a zlib stream; inflating the stream gives `data` back.
pub fn compress(data: &[u8]) -> (r: Result<Vec<u8>, GitError>)
    ensures
        match r {
            Ok(v) => zlib_compressed(data@) == Some(v@) && zlib_decompressed(v@) == Some(data@),
            Err(e) => zlib_compressed(data@) is None && e == GitError::CorruptObject,
        },
{
    match zlib_encode(data) {
        Some(v) => Ok(v),
        None => Err(GitError::CorruptObject),
    }
}

/// Inflates a zlib stream.
pub fn decompress(data: &[u8]) -> (r: Result<Vec<u8>, GitError>)
    ensures
        match r {
            Ok(v) => zlib_decompressed(data@) == Some(v@),
            Err(e) => zlib_decompressed(data@) is None && e == GitError::CorruptObject,
        },
{
    match zlib_decode(data) {
        Some(v) => Ok(v),
        None => Err(GitError::CorruptObject),
    }
}

} // verus!
