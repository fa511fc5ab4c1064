//! Compressed storage: zlib deflation and inflation of object bytes.

use vstd::prelude::*;

use crate::errors::GitError;
use std::io::Write;

verus! {

/// What the zlib decompressor yields on a byte sequence: the original bytes
/// for a valid stream, nothing otherwise.
pub uninterp spec fn inflate_of(z: Seq<u8>) -> Option<Seq<u8>>;

/// What the zlib compressor produces on a byte sequence.
pub uninterp spec fn deflate_of(data: Seq<u8>) -> Seq<u8>;

/// Relies on `flate2::write::ZlibEncoder` (default level, pure-Rust backend):
/// compression is a function of the input bytes alone, and its output
/// decompresses back to the input.
#[verifier::external_body]
pub(crate) fn zlib_deflate(data: &Vec<u8>) -> (r: Vec<u8>)
    ensures
        r@ == deflate_of(data@),
        inflate_of(r@) == Some(data@),
{
    let mut enc = flate2::write::ZlibEncoder::new(Vec::new(), flate2::Compression::default());
    enc.write_all(data.as_slice()).expect("writing to an in-memory encoder");
    enc.finish().expect("finishing an in-memory encoder")
}

/// Relies on `flate2::write::ZlibDecoder`: decompression is a function of the
/// compressed bytes alone, and fails exactly where they are not one whole
/// zlib stream.
#[verifier::external_body]
pub(crate) fn zlib_inflate(z: &Vec<u8>) -> (r: Result<Vec<u8>, GitError>)
    ensures
        match r {
            Ok(f) => inflate_of(z@) == Some(f@),
            Err(e) => inflate_of(z@) is None && e == GitError::BadCompression,
        },
{
    let mut dec = flate2::write::ZlibDecoder::new(Vec::new());
    if dec.write_all(z.as_slice()).is_err() {
        return Err(GitError::BadCompression);
    }
    match dec.finish() {
        Ok(v) => Ok(v),
        Err(_) => Err(GitError::BadCompression),
    }
}

} // verus!
