//! Reversible compression of object bytes for storage on disk.

use std::io::{Read, Write};

use flate2::read::ZlibDecoder;
use flate2::write::ZlibEncoder;
use flate2::Compression;
use vstd::prelude::*;

use crate::error::ObjectError;

verus! {

/// The zlib stream that flate2 produces for some bytes at its best compression level.
pub uninterp spec fn zlib_compressed(b: Seq<u8>) -> Seq<u8>;

/// What flate2 inflates a zlib stream to (bytes after a complete stream are
/// ignored), or `None` where the stream is corrupt or stops short.
pub uninterp spec fn zlib_inflated(b: Seq<u8>) -> Option<Seq<u8>>;

/// Relies on flate2's `ZlibEncoder` (written into a `Vec`, level `Compression::best()`,
/// then `finish`): it gives the zlib stream of the input. Writing into a `Vec`
/// cannot fail, and the compressor reports errors only for parameters that this
/// use never passes, so it always succeeds.
#[verifier::external_body]
fn deflate(b: &[u8]) -> (r: Option<Vec<u8>>)
    ensures
        r is Some,
        r->0@ == zlib_compressed(b@),
{
    let mut e = ZlibEncoder::new(Vec::new(), Compression::best());
    match e.write_all(b) {
        Ok(()) => e.finish().ok(),
        Err(_) => None,
    }
}

/// Relies on flate2's `ZlibDecoder` read to the end: it inflates a valid stream,
/// fails on an invalid one, and gives back exactly what a stream was made from.
#[verifier::external_body]
fn inflate(b: &[u8]) -> (r: Option<Vec<u8>>)
    ensures
        r is Some <==> zlib_inflated(b@) is Some,
        r is Some ==> r->0@ == zlib_inflated(b@)->0,
        forall|x: Seq<u8>| #[trigger] zlib_compressed(x) == b@ ==> (r is Some && r->0@ == x),
{
    let mut d = ZlibDecoder::new(b);
    let mut buffer = Vec::new();
    match d.read_to_end(&mut buffer) {
        Ok(_) => Some(buffer),
        Err(_) => None,
    }
}

/// Compresses bytes into a zlib stream at the best compression level; this
/// never fails, and equal bytes give equal streams.
pub fn zlib_encode(bytes: &[u8]) -> (r: Result<Vec<u8>, ObjectError>)
    ensures
        r is Ok,
        r->Ok_0@ == zlib_compressed(bytes@),
{
    match deflate(bytes) {
        Some(v) => Ok(v),
        None => Err(ObjectError::IoError),
    }
}

/// Inflates a zlib stream. Decoding what `zlib_encode` produced from some bytes
/// always succeeds and gives back exactly those bytes.
pub fn zlib_decode(bytes: &[u8]) -> (r: Result<Vec<u8>, ObjectError>)
    ensures
        match zlib_inflated(bytes@) {
            Some(v) => r is Ok && r->Ok_0@ == v,
            None => r == Err::<Vec<u8>, ObjectError>(ObjectError::CorruptObject(None)),
        },
        forall|x: Seq<u8>|
            #[trigger] zlib_compressed(x) == bytes@ ==> (r is Ok && r->Ok_0@ == x),
{
    match inflate(bytes) {
        Some(v) => Ok(v),
        None => Err(ObjectError::CorruptObject(None)),
    }
}

} // verus!
