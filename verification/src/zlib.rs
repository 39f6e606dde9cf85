use vstd::prelude::*;

use crate::wad::WadError;

verus! {

/// Compression effort preset handed to the deflate stream compressor.
#[derive(Debug, Clone, Copy, PartialEq, Eq)]
pub enum ZlibCompressionLevel {
    NoCompression,
    Fast,
    Best,
    Default,
}

/// The numeric effort value that each preset stands for.
pub open spec fn level_num(level: ZlibCompressionLevel) -> int {
    match level {
        ZlibCompressionLevel::NoCompression => 0,
        ZlibCompressionLevel::Fast => 1,
        ZlibCompressionLevel::Best => 9,
        ZlibCompressionLevel::Default => 6,
    }
}

/// The zlib stream that compressing `data` at effort `level` produces:
/// a fixed function of the two arguments, left unnamed beyond that.
pub uninterp spec fn zlib_deflate(data: Seq<u8>, level: int) -> Seq<u8>;

/// What decompressing `data` yields: `Some` payload for a valid zlib
/// stream, `None` for a corrupt one; a fixed function of its argument.
pub uninterp spec fn zlib_inflate(data: Seq<u8>) -> Option<Seq<u8>>;

#[verifier::external_type_specification]
#[verifier::external_body]
pub struct ExCompression(flate2::Compression);

impl ZlibCompressionLevel {
    /// Relies on flate2's `Compression::{none, fast, best, default}`: each
    /// preset picks the corresponding effort constant; the value is opaque here.
    #[verifier::external_body]
    pub fn to_flate2_compression(&self) -> flate2::Compression {
        match self {
            ZlibCompressionLevel::NoCompression => flate2::Compression::none(),
            ZlibCompressionLevel::Fast => flate2::Compression::fast(),
            ZlibCompressionLevel::Best => flate2::Compression::best(),
            ZlibCompressionLevel::Default => flate2::Compression::default(),
        }
    }
}

/// Relies on flate2's `write::ZlibEncoder` over a `Vec` writer, whose writes
/// cannot fail: the stream is a function of the payload and effort alone, is
/// never empty (it carries a header and a checksum), and decompressing it
/// yields the payload back.
#[verifier::external_body]
fn deflate_bytes(data: &[u8], level: ZlibCompressionLevel) -> (r: Vec<u8>)
    ensures
        r@ == zlib_deflate(data@, level_num(level)),
        r@.len() >= 1,
        zlib_inflate(r@) == Some(data@),
{
    let mut encoder = flate2::write::ZlibEncoder::new(Vec::new(), level.to_flate2_compression());
    std::io::Write::write_all(&mut encoder, data).unwrap();
    encoder.finish().unwrap()
}

/// Relies on flate2's `read::ZlibDecoder` driven by `Read::read_to_end`: a
/// valid zlib stream yields its payload, a function of the input alone; a
/// corrupt stream yields an error.
#[verifier::external_body]
fn inflate_bytes(data: &[u8]) -> (r: Result<Vec<u8>, WadError>)
    ensures
        match r {
            Ok(v) => zlib_inflate(data@) == Some(v@),
            Err(e) => e == WadError::CorruptStream && zlib_inflate(data@) is None,
        },
{
    let mut decoder = flate2::read::ZlibDecoder::new(data);
    let mut out: Vec<u8> = Vec::new();
    match std::io::Read::read_to_end(&mut decoder, &mut out) {
        Ok(_) => Ok(out),
        Err(_) => Err(WadError::CorruptStream),
    }
}

/// Compress `data` with the chosen effort preset.
pub fn compress_zlib(data: &[u8], level: ZlibCompressionLevel) -> (r: Result<Vec<u8>, WadError>)
    ensures
        r matches Ok(v),
        r matches Ok(v) ==> {
            &&& v@ == zlib_deflate(data@, level_num(level))
            &&& v@.len() >= 1
            &&& zlib_inflate(v@) == Some(data@)
        },
{
    Ok(deflate_bytes(data, level))
}

/// Decompress a zlib stream; a corrupt stream is reported as such.
pub fn decompress_zlib(data: &[u8]) -> (r: Result<Vec<u8>, WadError>)
    ensures
        match r {
            Ok(v) => zlib_inflate(data@) == Some(v@),
            Err(e) => e == WadError::CorruptStream && zlib_inflate(data@) is None,
        },
        zlib_inflate(data@) is Some ==> r is Ok,
{
    inflate_bytes(data)
}

} // verus!
