//! Compression codecs for Avro data blocks.

use crate::compression::checksum;
use crate::compression::checksum::{append_checksum, checksum_matches};
use crate::compression::external;
use crate::compression::external::ZstdError;
use crate::compression::level::{Bzip2Level, DeflateLevel, XzLevel, ZstdLevel};
use vstd::prelude::*;

verus! {

/// The metadata key used for storing the JSON encoded [`CompressionCodec`]
pub const CODEC_METADATA_KEY: &'static str = "avro.codec";

/// The message for [`CodecError::CrcMismatch`]
pub const CRC_MISMATCH: &'static str = "Snappy CRC mismatch";

/// What can go wrong while a block is compressed or decompressed.
#[derive(Debug)]
pub enum CodecError {
    /// Bytes could not be handed to a stream compressor, or taken from one.
    Io(std::io::Error),
    /// A compressor or decompressor has failed for a reason of its own.
    External(std::io::Error),
    /// The Snappy compressor or decompressor has failed.
    Snappy(snap::Error),
    /// The checksum behind a Snappy block is not the one of its contents.
    CrcMismatch,
}

#[derive(Debug, Copy, Clone, Eq, PartialEq, Structural)]
/// Supported compression codecs for Avro data
///
/// Avro supports multiple compression formats for data blocks.
/// This enum represents the compression codecs available in this implementation.
///
/// Codecs that take a compression level carry a typed level wrapper
/// (e.g. [`DeflateLevel`]). Use the `Default` impl on those wrappers to
/// get the codec's natural default level. The compression level is a
/// writer-side choice: it is not persisted in the file metadata, so the
/// reader does not need to know what level was used to compress a block.
pub enum CompressionCodec {
    /// Deflate compression (RFC 1951)
    Deflate(DeflateLevel),
    /// Snappy compression
    Snappy,
    /// ZStandard compression
    ZStandard(ZstdLevel),
    /// Bzip2 compression
    Bzip2(Bzip2Level),
    /// Xz compression
    Xz(XzLevel),
}

/// The length of the checksum behind a Snappy block
pub const CHECKSUM_LEN: usize = 4;

impl CompressionCodec {
    /// What `data` is compressed to.
    pub open spec fn compressed(self, data: Seq<u8>) -> Seq<u8> {
        match self {
            CompressionCodec::Deflate(level) => external::deflate_compressed(level.level(), data),
            CompressionCodec::Snappy => external::snappy_compressed(data) + checksum::be_bytes(
                checksum::crc32(data),
            ),
            CompressionCodec::ZStandard(level) => external::zstd_compressed(level.level(), data),
            CompressionCodec::Bzip2(level) => external::bzip2_compressed(level.level(), data),
            CompressionCodec::Xz(level) => external::xz_compressed(level.level(), data),
        }
    }

    /// What `block` is decompressed to, if it is in order.
    ///
    /// Behind a Snappy block stands the checksum of its contents.
    pub open spec fn decompressed(self, block: Seq<u8>) -> Result<Seq<u8>, BlockError> {
        match self {
            CompressionCodec::Deflate(_) => in_order(external::deflate_decompressed(block)),
            CompressionCodec::Snappy => {
                let split = block.len() - CHECKSUM_LEN;
                match external::snappy_decompressed(block.take(split)) {
                    Some(data) => if block.skip(split) == checksum::be_bytes(
                        checksum::crc32(data),
                    ) {
                        Ok(data)
                    } else {
                        Err(BlockError::CrcMismatch)
                    },
                    None => Err(BlockError::Corrupt),
                }
            },
            CompressionCodec::ZStandard(_) => in_order(external::zstd_decompressed(block)),
            CompressionCodec::Bzip2(_) => in_order(external::bzip2_decompressed(block)),
            CompressionCodec::Xz(_) => in_order(external::xz_decompressed(block)),
        }
    }

    /// Compressing `data` may fail with `error`.
    ///
    /// Deflate and Bzip2 never fail, and Snappy only if the data might not fit. For
    /// the others it rests on the memory there is.
    pub open spec fn may_refuse(self, data: Seq<u8>, error: CodecError) -> bool {
        match error {
            CodecError::Io(_) => self is ZStandard || self is Xz,
            CodecError::External(_) => self is ZStandard,
            CodecError::Snappy(_) => self is Snappy && !external::snappy_fits(data.len()),
            CodecError::CrcMismatch => false,
        }
    }

    /// `r` is what the decompressor of this format has returned for `block`, with its
    /// error as one of [`CodecError`].
    pub open(crate) spec fn decoder_returned(
        self,
        block: &[u8],
        r: Result<Vec<u8>, CodecError>,
    ) -> bool {
        match self {
            CompressionCodec::Deflate(_) => exists|o: Result<Vec<u8>, std::io::Error>| #[trigger]
                call_ensures(external::deflate_decompress, (block,), o) && r == stream_outcome(o),
            CompressionCodec::Snappy => exists|body: &[u8], o: Result<Vec<u8>, snap::Error>|
                #[trigger] call_ensures(external::snappy_decompress, (body,), o) && body@
                    == block@.take(block@.len() - CHECKSUM_LEN) && r == match o {
                    Ok(decoded) => checked(decoded, block@.skip(block@.len() - CHECKSUM_LEN)),
                    Err(error) => Err(CodecError::Snappy(error)),
                },
            CompressionCodec::ZStandard(_) => exists|o: Result<Vec<u8>, ZstdError>| #[trigger]
                call_ensures(external::zstd_decompress, (block,), o) && r == zstd_decoder_outcome(
                    o,
                ),
            CompressionCodec::Bzip2(_) => exists|o: Result<Vec<u8>, std::io::Error>| #[trigger]
                call_ensures(external::bzip2_decompress, (block,), o) && r == external_outcome(o),
            CompressionCodec::Xz(_) => exists|o: Result<Vec<u8>, std::io::Error>| #[trigger]
                call_ensures(external::xz_decompress, (block,), o) && r == external_outcome(o),
        }
    }

    /// `r` is what the compressor of this format has returned for `data`, at this
    /// level, with its error as one of [`CodecError`].
    pub open(crate) spec fn encoder_returned(
        self,
        data: &[u8],
        r: Result<Vec<u8>, CodecError>,
    ) -> bool {
        match self {
            CompressionCodec::Deflate(level) => exists|o: Result<Vec<u8>, std::io::Error>| #[trigger]
                call_ensures(external::deflate_compress, (level.level(), data), o) && r
                    == stream_outcome(o),
            CompressionCodec::Snappy => exists|o: Result<Vec<u8>, snap::Error>| #[trigger]
                call_ensures(external::snappy_compress, (data,), o) && match o {
                    Ok(out) => r is Ok && r->Ok_0@ == out@ + checksum::be_bytes(
                        checksum::crc32(data@),
                    ),
                    Err(error) => r == Err::<Vec<u8>, CodecError>(CodecError::Snappy(error)),
                },
            CompressionCodec::ZStandard(level) => exists|o: Result<Vec<u8>, ZstdError>| #[trigger]
                call_ensures(external::zstd_compress, (level.level(), data), o) && r
                    == zstd_encoder_outcome(o),
            CompressionCodec::Bzip2(level) => exists|o: Result<Vec<u8>, std::io::Error>| #[trigger]
                call_ensures(external::bzip2_compress, (level.level(), data), o) && r
                    == stream_outcome(o),
            CompressionCodec::Xz(level) => exists|o: Result<Vec<u8>, std::io::Error>| #[trigger]
                call_ensures(external::xz_compress, (level.level(), data), o) && r
                    == stream_outcome(o),
        }
    }

    /// The two codecs differ in their levels at most.
    pub open spec fn same_format(self, other: CompressionCodec) -> bool {
        match self {
            CompressionCodec::Deflate(_) => other is Deflate,
            CompressionCodec::Snappy => other is Snappy,
            CompressionCodec::ZStandard(_) => other is ZStandard,
            CompressionCodec::Bzip2(_) => other is Bzip2,
            CompressionCodec::Xz(_) => other is Xz,
        }
    }

    /// The level, if there is one, is one that the codec has.
    pub open spec fn valid(self) -> bool {
        match self {
            CompressionCodec::Deflate(level) => level.level() <= 9,
            CompressionCodec::Snappy => true,
            CompressionCodec::ZStandard(level) => 1 <= level.level() <= 22,
            CompressionCodec::Bzip2(level) => 1 <= level.level() <= 9,
            CompressionCodec::Xz(level) => level.level() <= 9,
        }
    }
}

/// What is wrong with a compressed block.
pub enum BlockError {
    Corrupt,
    CrcMismatch,
}

/// A decompressor's result.
pub open spec fn in_order(data: Option<Seq<u8>>) -> Result<Seq<u8>, BlockError> {
    match data {
        Some(data) => Ok(data),
        None => Err(BlockError::Corrupt),
    }
}

/// An error of a stream compressor or decompressor is one of input or output.
pub open spec fn stream_outcome(result: Result<Vec<u8>, std::io::Error>) -> Result<
    Vec<u8>,
    CodecError,
> {
    match result {
        Ok(out) => Ok(out),
        Err(error) => Err(CodecError::Io(error)),
    }
}

/// An error of a decompressor is one of its own.
pub open spec fn external_outcome(result: Result<Vec<u8>, std::io::Error>) -> Result<
    Vec<u8>,
    CodecError,
> {
    match result {
        Ok(out) => Ok(out),
        Err(error) => Err(CodecError::External(error)),
    }
}

/// Of the errors of `zstd` while it compresses, only one while bytes are written is
/// one of input or output.
pub open spec fn zstd_encoder_outcome(result: Result<Vec<u8>, ZstdError>) -> Result<
    Vec<u8>,
    CodecError,
> {
    match result {
        Ok(out) => Ok(out),
        Err(ZstdError::Stream(error)) => Err(CodecError::Io(error)),
        Err(ZstdError::Setup(error)) | Err(ZstdError::Finish(error)) => Err(
            CodecError::External(error),
        ),
    }
}

/// Of the errors of `zstd` while it decompresses, only one while it is set up is one
/// of input or output.
pub open spec fn zstd_decoder_outcome(result: Result<Vec<u8>, ZstdError>) -> Result<
    Vec<u8>,
    CodecError,
> {
    match result {
        Ok(out) => Ok(out),
        Err(ZstdError::Setup(error)) => Err(CodecError::Io(error)),
        Err(ZstdError::Stream(error)) | Err(ZstdError::Finish(error)) => Err(
            CodecError::External(error),
        ),
    }
}

/// What was decompressed is given out if `crc` is the checksum of it.
pub open spec fn checked(decoded: Vec<u8>, crc: Seq<u8>) -> Result<Vec<u8>, CodecError> {
    if crc == checksum::be_bytes(checksum::crc32(decoded@)) {
        Ok(decoded)
    } else {
        Err(CodecError::CrcMismatch)
    }
}

impl CompressionCodec {
    /// Decompresses a block.
    ///
    /// A Snappy block is followed by the 4-byte, big-endian CRC32 checksum of the
    /// uncompressed data in the block.
    ///
    /// What was compressed, at any level, is given back. ZStandard, Bzip2 and Xz may
    /// fail nevertheless, if there is not the memory to decompress it.
    pub fn decompress(&self, block: &[u8]) -> (r: Result<Vec<u8>, CodecError>)
        requires
            self is Snappy ==> block@.len() >= CHECKSUM_LEN,
        ensures
            r matches Ok(out) ==> self.decompressed(block@) == Ok::<Seq<u8>, BlockError>(out@),
            r matches Err(error) ==> match error {
                CodecError::Io(_) => self is ZStandard || self is Deflate && self.decompressed(
                    block@,
                ) == Err::<Seq<u8>, BlockError>(BlockError::Corrupt),
                CodecError::External(_) => self is ZStandard || self is Bzip2 || self is Xz,
                CodecError::Snappy(_) => self is Snappy && self.decompressed(block@) == Err::<
                    Seq<u8>,
                    BlockError,
                >(BlockError::Corrupt),
                CodecError::CrcMismatch => self is Snappy && self.decompressed(block@) == Err::<
                    Seq<u8>,
                    BlockError,
                >(BlockError::CrcMismatch),
            },
            self.decoder_returned(block, r),
            forall|codec: CompressionCodec, data: Seq<u8>|
                codec.valid() && self.same_format(codec) && block@ == #[trigger] codec.compressed(
                    data,
                ) && (self is Snappy ==> external::snappy_fits(data.len())) ==> {
                    &&& self is Deflate || self is Snappy ==> r is Ok
                    &&& r matches Ok(out) ==> out@ == data
                },
    {
        match self {
            CompressionCodec::Deflate(_) => stream_result(external::deflate_decompress(block)),
            CompressionCodec::Snappy => {
                let split: usize = block.len() - CHECKSUM_LEN;
                let crc = vstd::slice::slice_subrange(block, split, block.len());
                let body = vstd::slice::slice_subrange(block, 0, split);
                proof {
                    assert(body@ =~= block@.take(split as int));
                    assert(crc@ =~= block@.skip(split as int));
                    lemma_snappy_frame(block@);
                }
                match external::snappy_decompress(body) {
                    Ok(decoded) => check_decoded(decoded, crc),
                    Err(error) => Err(CodecError::Snappy(error)),
                }
            },
            CompressionCodec::ZStandard(_) => zstd_decoded(external::zstd_decompress(block)),
            CompressionCodec::Bzip2(_) => external_result(external::bzip2_decompress(block)),
            CompressionCodec::Xz(_) => external_result(external::xz_decompress(block)),
        }
    }

    /// Compresses a block.
    ///
    /// Behind a Snappy block comes the checksum of the **uncompressed** data.
    pub fn compress(&self, data: &[u8]) -> (r: Result<Vec<u8>, CodecError>)
        ensures
            self.valid(),
            r matches Ok(out) ==> out@ == self.compressed(data@),
            r matches Err(error) ==> self.may_refuse(data@, error),
            self is Snappy && !external::snappy_fits(data@.len()) ==> r is Err,
            self.encoder_returned(data, r),
    {
        match self {
            CompressionCodec::Deflate(level) => {
                stream_result(external::deflate_compress(level.compression_level(), data))
            },
            CompressionCodec::Snappy => match external::snappy_compress(data) {
                Ok(compressed) => Ok(append_checksum(compressed, data)),
                Err(error) => Err(CodecError::Snappy(error)),
            },
            CompressionCodec::ZStandard(level) => {
                zstd_encoded(external::zstd_compress(level.compression_level(), data))
            },
            CompressionCodec::Bzip2(level) => {
                stream_result(external::bzip2_compress(level.compression_level(), data))
            },
            CompressionCodec::Xz(level) => {
                stream_result(external::xz_compress(level.compression_level(), data))
            },
        }
    }
}

/// What a stream compressor or decompressor has returned, with its error as one
/// of input or output.
pub fn stream_result(result: Result<Vec<u8>, std::io::Error>) -> (r: Result<Vec<u8>, CodecError>)
    ensures
        r == stream_outcome(result),
{
    match result {
        Ok(out) => Ok(out),
        Err(error) => Err(CodecError::Io(error)),
    }
}

/// What a decompressor has returned, with its error as one of its own.
pub fn external_result(result: Result<Vec<u8>, std::io::Error>) -> (r: Result<Vec<u8>, CodecError>)
    ensures
        r == external_outcome(result),
{
    match result {
        Ok(out) => Ok(out),
        Err(error) => Err(CodecError::External(error)),
    }
}

/// What `zstd` has compressed. Only an error while bytes are written is one of
/// input or output.
pub fn zstd_encoded(result: Result<Vec<u8>, ZstdError>) -> (r: Result<Vec<u8>, CodecError>)
    ensures
        r == zstd_encoder_outcome(result),
{
    match result {
        Ok(out) => Ok(out),
        Err(ZstdError::Setup(error)) => Err(CodecError::External(error)),
        Err(ZstdError::Stream(error)) => Err(CodecError::Io(error)),
        Err(ZstdError::Finish(error)) => Err(CodecError::External(error)),
    }
}

/// What `zstd` has decompressed. Only an error while it is set up is one of input
/// or output.
pub fn zstd_decoded(result: Result<Vec<u8>, ZstdError>) -> (r: Result<Vec<u8>, CodecError>)
    ensures
        r == zstd_decoder_outcome(result),
{
    match result {
        Ok(out) => Ok(out),
        Err(ZstdError::Setup(error)) => Err(CodecError::Io(error)),
        Err(ZstdError::Stream(error)) => Err(CodecError::External(error)),
        Err(ZstdError::Finish(error)) => Err(CodecError::External(error)),
    }
}

/// Holds what was decompressed against the checksum that came behind the block.
pub fn check_decoded(decoded: Vec<u8>, crc: &[u8]) -> (r: Result<Vec<u8>, CodecError>)
    requires
        crc@.len() == CHECKSUM_LEN,
    ensures
        r == checked(decoded, crc@),
{
    if checksum_matches(decoded.as_slice(), crc) {
        Ok(decoded)
    } else {
        Err(CodecError::CrcMismatch)
    }
}

/// Decompressing undoes compressing, and the level of the codec that decompresses
/// does not matter.
///
/// Deflate and Snappy always give the data back. ZStandard, Bzip2 and Xz give back
/// either the data or the error that their decompressor has returned for this very
/// block.
pub proof fn lemma_decompress_undoes_compress(
    writer: CompressionCodec,
    reader: CompressionCodec,
    data: &[u8],
    compressed: Vec<u8>,
    block: &[u8],
    r: Result<Vec<u8>, CodecError>,
)
    requires
        reader.same_format(writer),
        call_ensures(
            CompressionCodec::compress,
            (&writer, data),
            Ok::<Vec<u8>, CodecError>(compressed),
        ),
        block@ == compressed@,
        call_ensures(CompressionCodec::decompress, (&reader, block), r),
    ensures
        r matches Ok(out) ==> out@ == data@,
        reader is Deflate || reader is Snappy ==> r is Ok,
        reader.decoder_returned(block, r),
{
}

/// A framed Snappy block is the compressed data and their checksum, and falls
/// apart into just these.
proof fn lemma_snappy_frame(block: Seq<u8>)
    ensures
        forall|data: Seq<u8>|
            block == #[trigger] CompressionCodec::Snappy.compressed(data) ==> {
                let split = block.len() - CHECKSUM_LEN;
                &&& block.take(split) == external::snappy_compressed(data)
                &&& block.skip(split) == checksum::be_bytes(checksum::crc32(data))
            },
{
    assert forall|data: Seq<u8>|
        block == #[trigger] CompressionCodec::Snappy.compressed(data) implies {
        let split = block.len() - CHECKSUM_LEN;
        &&& block.take(split) == external::snappy_compressed(data)
        &&& block.skip(split) == checksum::be_bytes(checksum::crc32(data))
    } by {
        let split = block.len() - CHECKSUM_LEN;
        assert(block.take(split) =~= external::snappy_compressed(data));
        assert(block.skip(split) =~= checksum::be_bytes(checksum::crc32(data)));
    }
}

} // verus!
