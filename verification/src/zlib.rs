//! The zlib streams inside log containers.

use std::io::{Read, Write};

use vstd::prelude::*;

verus! {

/// The bytes into which data is compressed at a level, or the error where it cannot be.
pub uninterp spec fn zlib_deflated(data: Seq<u8>, level: u32) -> Result<
    Seq<u8>,
    std::io::Error,
>;

/// The bytes that a zlib stream decompresses to, or the error where it is none.
pub uninterp spec fn zlib_inflated(data: Seq<u8>) -> Result<Seq<u8>, std::io::Error>;

/// Whether a zlib stream decompresses to a piece of data.
pub open spec fn inflates_to(data: Seq<u8>, piece: Seq<u8>) -> bool {
    zlib_inflated(data) == Ok::<Seq<u8>, std::io::Error>(piece)
}

/// The highest compression level.
pub const MAX_LEVEL: u32 = 10;

/// `flate2::Compression::default` and its `level`: the default level is 6.
#[verifier::external_body]
pub(crate) fn default_level() -> (level: u32)
    ensures
        level == 6,
{
    flate2::Compression::default().level()
}

/// `flate2::write::ZlibEncoder` over a vector: the data written whole, then `finish`.
/// What comes out, or the error, depends on the data and the level alone, and what comes
/// out decompresses to the data. Nothing is claimed of its size.
#[verifier::external_body]
pub(crate) fn deflate(data: &[u8], level: u32) -> (res: Result<Vec<u8>, std::io::Error>)
    requires
        level <= MAX_LEVEL,
    ensures
        match res {
            Ok(out) => zlib_deflated(data@, level) == Ok::<Seq<u8>, std::io::Error>(out@)
                && inflates_to(out@, data@),
            Err(e) => zlib_deflated(data@, level) == Err::<Seq<u8>, std::io::Error>(e),
        },
{
    let mut encoder =
        flate2::write::ZlibEncoder::new(Vec::new(), flate2::Compression::new(level));
    encoder.write_all(data)?;
    encoder.finish()
}

/// `flate2::read::ZlibDecoder` over a slice, read to its end. What comes out depends
/// on the bytes alone, and so does the error.
#[verifier::external_body]
pub(crate) fn inflate(data: &[u8]) -> (res: Result<Vec<u8>, std::io::Error>)
    ensures
        match res {
            Ok(out) => inflates_to(data@, out@),
            Err(e) => zlib_inflated(data@) == Err::<Seq<u8>, std::io::Error>(e),
        },
{
    let mut out = Vec::new();
    flate2::read::ZlibDecoder::new(data).read_to_end(&mut out)?;
    Ok(out)
}

} // verus!
