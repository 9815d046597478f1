//! The compressors and decompressors of other crates.
//!
//! What they make of their input takes a format's description to state. It is
//! only named here, together with the fact that decompressing gives back what
//! was compressed.

use std::io::{Read, Write};
use vstd::prelude::*;

verus! {

/// An error of a stream compressor or decompressor.
#[verifier::external_type_specification]
#[verifier::external_body]
pub struct ExIoError(std::io::Error);

/// An error of the Snappy compressor or decompressor.
#[verifier::external_type_specification]
#[verifier::external_body]
pub struct ExSnappyError(snap::Error);

/// What `flate2` compresses `data` to.
pub uninterp spec fn deflate_compressed(level: u32, data: Seq<u8>) -> Seq<u8>;

/// What `flate2` decompresses `block` to, if it is the DEFLATE stream that it
/// should be.
pub uninterp spec fn deflate_decompressed(block: Seq<u8>) -> Option<Seq<u8>>;

/// `flate2::write::DeflateEncoder`, which writes all of `data` into memory.
///
/// Taken on trust: what it writes depends on `level` and `data` alone, and it
/// returns no error. One write and one finish, into a vector that takes all bytes,
/// keep to the order that the compressor asks for, and a block always fits into
/// the buffer that the compressor has for it.
#[verifier::external_body]
pub(crate) fn deflate_compress(level: u32, data: &[u8]) -> (r: Result<Vec<u8>, std::io::Error>)
    requires
        level <= 9,
    ensures
        r is Ok,
        r matches Ok(out) ==> out@ == deflate_compressed(level, data@),
{
    let compression = flate2::Compression::new(level);
    let mut encoder = flate2::write::DeflateEncoder::new(Vec::new(), compression);
    encoder.write_all(data)?;
    encoder.finish()
}

/// `flate2::read::DeflateDecoder`, read to its end.
///
/// Taken on trust: what it returns depends on `block` alone, and it gives back
/// what was compressed, at any level. Its only errors are that a stream is corrupt
/// or ends too early, and reading to the end adds none to them.
#[verifier::external_body]
pub(crate) fn deflate_decompress(block: &[u8]) -> (r: Result<Vec<u8>, std::io::Error>)
    ensures
        match r {
            Ok(out) => deflate_decompressed(block@) == Some(out@),
            Err(_) => deflate_decompressed(block@) is None,
        },
        forall|level: u32, data: Seq<u8>|
            level <= 9 && block@ == #[trigger] deflate_compressed(level, data) ==> r is Ok
                && r->Ok_0@ == data,
{
    let mut decoder = flate2::read::DeflateDecoder::new(block);
    let mut out = Vec::new();
    decoder.read_to_end(&mut out)?;
    Ok(out)
}

/// What `zstd` compresses `data` to.
pub uninterp spec fn zstd_compressed(level: i32, data: Seq<u8>) -> Seq<u8>;

/// What `zstd` decompresses `block` to, if it is made of the frames that it
/// should be made of.
pub uninterp spec fn zstd_decompressed(block: Seq<u8>) -> Option<Seq<u8>>;

/// Where `zstd` has failed.
#[derive(Debug)]
pub enum ZstdError {
    /// While it was set up.
    Setup(std::io::Error),
    /// While bytes were written to it or read from it.
    Stream(std::io::Error),
    /// While it was finished.
    Finish(std::io::Error),
}

/// `zstd::Encoder`, which writes all of `data` into memory.
///
/// Taken on trust: what it writes depends on `level` and `data` alone. Whether it
/// gets that far is left open: for want of memory it returns an error.
#[verifier::external_body]
pub(crate) fn zstd_compress(level: i32, data: &[u8]) -> (r: Result<Vec<u8>, ZstdError>)
    requires
        1 <= level <= 22,
    ensures
        r matches Ok(out) ==> out@ == zstd_compressed(level, data@),
{
    let mut encoder = zstd::Encoder::new(Vec::new(), level).map_err(ZstdError::Setup)?;
    encoder.write_all(data).map_err(ZstdError::Stream)?;
    encoder.finish().map_err(ZstdError::Finish)
}

/// `zstd::Decoder`, read to its end.
///
/// Taken on trust: what it reads depends on `block` alone, and is what was
/// compressed, at any level. That frames which are in order can be read is left
/// open: for want of memory too it returns an error.
#[verifier::external_body]
pub(crate) fn zstd_decompress(block: &[u8]) -> (r: Result<Vec<u8>, ZstdError>)
    ensures
        r matches Err(error) ==> !(error is Finish),
        r matches Ok(out) ==> zstd_decompressed(block@) == Some(out@),
        r matches Ok(out) ==> forall|level: i32, data: Seq<u8>|
            1 <= level <= 22 && block@ == #[trigger] zstd_compressed(level, data) ==> out@ == data,
{
    let mut decoder = zstd::Decoder::new(block).map_err(ZstdError::Setup)?;
    let mut out = Vec::new();
    decoder.read_to_end(&mut out).map_err(ZstdError::Stream)?;
    Ok(out)
}

/// What `bzip2` compresses `data` to.
pub uninterp spec fn bzip2_compressed(level: u32, data: Seq<u8>) -> Seq<u8>;

/// What `bzip2` decompresses `block` to, if it is the stream that it should be.
pub uninterp spec fn bzip2_decompressed(block: Seq<u8>) -> Option<Seq<u8>>;

/// `bzip2::write::BzEncoder`, which writes all of `data` into memory.
///
/// Taken on trust: what it writes depends on `level` and `data` alone, and it
/// returns no errors but those of the vector that it writes to, which has none.
#[verifier::external_body]
pub(crate) fn bzip2_compress(level: u32, data: &[u8]) -> (r: Result<Vec<u8>, std::io::Error>)
    requires
        1 <= level <= 9,
    ensures
        r is Ok,
        r matches Ok(out) ==> out@ == bzip2_compressed(level, data@),
{
    let compression = bzip2::Compression::new(level);
    let mut encoder = bzip2::write::BzEncoder::new(Vec::new(), compression);
    encoder.write_all(data)?;
    encoder.finish()
}

/// `bzip2::read::BzDecoder`, read to its end.
///
/// Taken on trust: what it reads depends on `block` alone, and is what was
/// compressed, at any level. That a stream which is in order can be read is left
/// open: for want of memory too it returns an error.
#[verifier::external_body]
pub(crate) fn bzip2_decompress(block: &[u8]) -> (r: Result<Vec<u8>, std::io::Error>)
    ensures
        r matches Ok(out) ==> bzip2_decompressed(block@) == Some(out@),
        r matches Ok(out) ==> forall|level: u32, data: Seq<u8>|
            1 <= level <= 9 && block@ == #[trigger] bzip2_compressed(level, data) ==> out@ == data,
{
    let mut decoder = bzip2::read::BzDecoder::new(block);
    let mut out = Vec::new();
    decoder.read_to_end(&mut out)?;
    Ok(out)
}

/// What `xz` compresses `data` to, with the liblzma that comes with `lzma-sys`.
pub uninterp spec fn xz_compressed(level: u32, data: Seq<u8>) -> Seq<u8>;

/// What `xz` decompresses `block` to, if it is the stream that it should be.
pub uninterp spec fn xz_decompressed(block: Seq<u8>) -> Option<Seq<u8>>;

/// `xz::write::XzEncoder`, which writes all of `data` into memory.
///
/// Taken on trust: what it writes depends on `level` and `data` alone. Whether it
/// gets that far is left open: for want of memory it returns an error.
#[verifier::external_body]
pub(crate) fn xz_compress(level: u32, data: &[u8]) -> (r: Result<Vec<u8>, std::io::Error>)
    requires
        level <= 9,
    ensures
        r matches Ok(out) ==> out@ == xz_compressed(level, data@),
{
    let mut encoder = xz::write::XzEncoder::new(Vec::new(), level);
    encoder.write_all(data)?;
    encoder.finish()
}

/// `xz::read::XzDecoder`, read to its end.
///
/// Taken on trust: what it reads depends on `block` alone, and is what was
/// compressed, at any level. That a stream which is in order can be read is left
/// open: for want of memory too it returns an error.
#[verifier::external_body]
pub(crate) fn xz_decompress(block: &[u8]) -> (r: Result<Vec<u8>, std::io::Error>)
    ensures
        r matches Ok(out) ==> xz_decompressed(block@) == Some(out@),
        r matches Ok(out) ==> forall|level: u32, data: Seq<u8>|
            level <= 9 && block@ == #[trigger] xz_compressed(level, data) ==> out@ == data,
{
    let mut decoder = xz::read::XzDecoder::new(block);
    let mut out = Vec::new();
    decoder.read_to_end(&mut out)?;
    Ok(out)
}

/// What `snap` compresses `data` to.
pub uninterp spec fn snappy_compressed(data: Seq<u8>) -> Seq<u8>;

/// What `snap` decompresses `block` to, if it is the block that it should be.
pub uninterp spec fn snappy_decompressed(block: Seq<u8>) -> Option<Seq<u8>>;

/// The longest compressed form of `len` bytes of data fits into 32 bits.
pub open spec fn snappy_fits(len: nat) -> bool {
    32 + len + len / 6 <= 0xffff_ffff
}

/// `snap::raw::Encoder::compress_vec`, on a new encoder.
///
/// Taken on trust: it refuses just those data that might not fit, and what it
/// returns for the others depends on them alone.
#[verifier::external_body]
pub(crate) fn snappy_compress(data: &[u8]) -> (r: Result<Vec<u8>, snap::Error>)
    ensures
        r is Ok <==> snappy_fits(data@.len()),
        r matches Ok(out) ==> out@ == snappy_compressed(data@),
{
    snap::raw::Encoder::new().compress_vec(data)
}

/// `snap::raw::Decoder::decompress_vec`, on a new decoder.
///
/// Taken on trust: what it returns depends on `block` alone, and it gives back
/// what was compressed.
#[verifier::external_body]
pub(crate) fn snappy_decompress(block: &[u8]) -> (r: Result<Vec<u8>, snap::Error>)
    ensures
        match r {
            Ok(out) => snappy_decompressed(block@) == Some(out@),
            Err(_) => snappy_decompressed(block@) is None,
        },
        forall|data: Seq<u8>|
            snappy_fits(data.len()) && block@ == #[trigger] snappy_compressed(data) ==> r is Ok
                && r->Ok_0@ == data,
{
    snap::raw::Decoder::new().decompress_vec(block)
}

} // verus!
