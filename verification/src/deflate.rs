//! The zlib codec, behind which entropy-coded literals and container payloads
//! are stored.

use std::io::{Read, Write};
use vstd::prelude::*;

verus! {

/// The zlib stream that the encoder writes for `data` at compression level
/// `level`.
pub uninterp spec fn zlib_stream(data: Seq<u8>, level: u32) -> Seq<u8>;

/// What the decoder reads from the zlib stream at the front of `stream`, if
/// there is a complete and sound one.
pub uninterp spec fn zlib_contents(stream: Seq<u8>) -> Option<Seq<u8>>;

/// Calls `flate2::write::ZlibEncoder` on the whole of `data`.
///
/// What is relied on: the stream depends on the data and the level alone, and
/// `flate2::read::ZlibDecoder` reads the data back from it. Writing into a
/// vector cannot fail, so neither `unwrap` can.
#[verifier::external_body]
fn zlib_write(data: &[u8], level: u32) -> (out: Vec<u8>)
    requires
        level <= 9,
    ensures
        out@ == zlib_stream(data@, level),
        zlib_contents(out@) == Some(data@),
{
    let mut enc = flate2::write::ZlibEncoder::new(Vec::new(), flate2::Compression::new(level));
    enc.write_all(data).unwrap();
    enc.finish().unwrap()
}

/// Calls `flate2::read::ZlibDecoder` on `stream` and reads to its end.
///
/// What is relied on: the outcome depends on the bytes alone. Which streams are
/// sound is left to the decoder; any error of its is a `None` here.
#[verifier::external_body]
fn zlib_read(stream: &[u8]) -> (out: Option<Vec<u8>>)
    ensures
        match out {
            Some(data) => zlib_contents(stream@) == Some(data@),
            None => zlib_contents(stream@) is None,
        },
{
    let mut out = Vec::new();
    match flate2::read::ZlibDecoder::new(stream).read_to_end(&mut out) {
        Ok(_) => Some(out),
        Err(_) => None,
    }
}

/// Compresses `data` at the default level. This is the payload of an
/// entropy-coded literal.
pub fn zlib_compress(data: &[u8]) -> (out: Vec<u8>)
    ensures
        out@ == zlib_stream(data@, 6),
        zlib_contents(out@) == Some(data@),
{
    zlib_write(data, 6)
}

/// Compresses `data` at the best level. This is the payload of a container.
pub fn compress_zlib(data: &[u8]) -> (out: Vec<u8>)
    ensures
        out@ == zlib_stream(data@, 9),
        zlib_contents(out@) == Some(data@),
{
    zlib_write(data, 9)
}

/// Reads back what a zlib stream holds; `None` if the stream is not sound.
pub fn inflate(stream: &[u8]) -> (out: Option<Vec<u8>>)
    ensures
        match out {
            Some(data) => zlib_contents(stream@) == Some(data@),
            None => zlib_contents(stream@) is None,
        },
{
    zlib_read(stream)
}

} // verus!
