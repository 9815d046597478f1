//! What calls of the codecs give, in terms of the formats that they are named after.

use crate::compression::checksum;
use crate::compression::codec::{
    check_decoded, external_result, stream_result, zstd_decoded, zstd_encoded, CodecError,
    CompressionCodec,
};
use crate::compression::external;
use crate::compression::external::ZstdError;
use crate::compression::level::{Bzip2Level, DeflateLevel, LevelError, XzLevel, ZstdLevel};
use crate::decimal;
use vstd::prelude::*;
use vstd::string::*;

verus! {

/// Each codec writes its own format, at its own level.
///
/// Deflate and Bzip2 do so for all data, and Snappy just for those data that are
/// sure to fit. Behind a Snappy block come the four bytes of the checksum of the
/// data, the most significant one first.
pub proof fn lemma_compress_writes_the_format(
    codec: CompressionCodec,
    data: &[u8],
    r: Result<Vec<u8>, CodecError>,
)
    requires
        call_ensures(CompressionCodec::compress, (&codec, data), r),
    ensures
        match codec {
            CompressionCodec::Deflate(level) => {
                &&& level.level() <= 9
                &&& r is Ok
                &&& r->Ok_0@ == external::deflate_compressed(level.level(), data@)
            },
            CompressionCodec::Snappy => {
                let sum = checksum::crc32(data@);
                &&& r is Ok <==> 32 + data@.len() + data@.len() / 6 <= 0xffff_ffff
                &&& r matches Ok(out) ==> out@ == external::snappy_compressed(data@) + seq![
                    (sum / 0x1000000) as u8,
                    (sum / 0x10000 % 0x100) as u8,
                    (sum / 0x100 % 0x100) as u8,
                    (sum % 0x100) as u8,
                ]
                &&& r matches Err(error) ==> error is Snappy
            },
            CompressionCodec::ZStandard(level) => {
                &&& 1 <= level.level() <= 22
                &&& r matches Ok(out) ==> out@ == external::zstd_compressed(level.level(), data@)
                &&& r matches Err(error) ==> error is Io || error is External
            },
            CompressionCodec::Bzip2(level) => {
                &&& 1 <= level.level() <= 9
                &&& r is Ok
                &&& r->Ok_0@ == external::bzip2_compressed(level.level(), data@)
            },
            CompressionCodec::Xz(level) => {
                &&& level.level() <= 9
                &&& r matches Ok(out) ==> out@ == external::xz_compressed(level.level(), data@)
                &&& r matches Err(error) ==> error is Io
            },
        },
{
}

/// Each codec reads its own format, whatever its level.
///
/// Deflate reads every block that is in order, and refuses the others. So does
/// Snappy, for blocks that the checksum of their contents follows.
pub proof fn lemma_decompress_reads_the_format(
    codec: CompressionCodec,
    block: &[u8],
    r: Result<Vec<u8>, CodecError>,
)
    requires
        call_ensures(CompressionCodec::decompress, (&codec, block), r),
        codec is Snappy ==> block@.len() >= 4,
    ensures
        match codec {
            CompressionCodec::Deflate(_) => match external::deflate_decompressed(block@) {
                Some(data) => r is Ok && r->Ok_0@ == data,
                None => r is Err && r->Err_0 is Io,
            },
            CompressionCodec::Snappy => {
                let split = block@.len() - 4;
                match external::snappy_decompressed(block@.take(split)) {
                    Some(data) => {
                        let sum = checksum::crc32(data);
                        if block@[split] == (sum / 0x1000000) as u8 && block@[split + 1] == (sum
                            / 0x10000 % 0x100) as u8 && block@[split + 2] == (sum / 0x100
                            % 0x100) as u8 && block@[split + 3] == (sum % 0x100) as u8 {
                            r is Ok && r->Ok_0@ == data
                        } else {
                            r is Err && r->Err_0 is CrcMismatch
                        }
                    },
                    None => r is Err && r->Err_0 is Snappy,
                }
            },
            CompressionCodec::ZStandard(_) => match r {
                Ok(out) => external::zstd_decompressed(block@) == Some(out@),
                Err(error) => error is Io || error is External,
            },
            CompressionCodec::Bzip2(_) => match r {
                Ok(out) => external::bzip2_decompressed(block@) == Some(out@),
                Err(error) => error is External,
            },
            CompressionCodec::Xz(_) => match r {
                Ok(out) => external::xz_decompressed(block@) == Some(out@),
                Err(error) => error is External,
            },
        },
{
    if codec is Snappy {
        let split = block@.len() - 4;
        if let Some(data) = external::snappy_decompressed(block@.take(split)) {
            let sum = checksum::crc32(data);
            let trailer = seq![
                (sum / 0x1000000) as u8,
                (sum / 0x10000 % 0x100) as u8,
                (sum / 0x100 % 0x100) as u8,
                (sum % 0x100) as u8,
            ];
            if block@[split] == trailer[0] && block@[split + 1] == trailer[1] && block@[split + 2]
                == trailer[2] && block@[split + 3] == trailer[3] {
                assert(block@.skip(split) =~= trailer);
            } else {
                assert(block@.skip(split)[0] == block@[split]);
                assert(block@.skip(split)[1] == block@[split + 1]);
                assert(block@.skip(split)[2] == block@[split + 2]);
                assert(block@.skip(split)[3] == block@[split + 3]);
            }
        }
    }
}

/// An error of a codec is one that the decompressor of its format has returned when
/// it was given all of the block, and what that decompressor has read is handed on:
/// a codec adds no errors of its own, but for the checksum of a Snappy block.
pub(crate) proof fn lemma_decompress_hands_on_the_result(
    codec: CompressionCodec,
    block: &[u8],
    r: Result<Vec<u8>, CodecError>,
)
    requires
        call_ensures(CompressionCodec::decompress, (&codec, block), r),
        codec is Snappy ==> block@.len() >= 4,
    ensures
        match codec {
            CompressionCodec::Deflate(_) => exists|o: Result<Vec<u8>, std::io::Error>|
                {
                    &&& #[trigger] call_ensures(external::deflate_decompress, (block,), o)
                    &&& match o {
                        Ok(out) => r == Ok::<Vec<u8>, CodecError>(out),
                        Err(error) => r == Err::<Vec<u8>, CodecError>(CodecError::Io(error)),
                    }
                },
            CompressionCodec::Snappy => exists|body: &[u8], o: Result<Vec<u8>, snap::Error>|
                {
                    &&& #[trigger] call_ensures(external::snappy_decompress, (body,), o)
                    &&& body@ == block@.take(block@.len() - 4)
                    &&& match o {
                        Ok(out) => r == Ok::<Vec<u8>, CodecError>(out) || r == Err::<
                            Vec<u8>,
                            CodecError,
                        >(CodecError::CrcMismatch),
                        Err(error) => r == Err::<Vec<u8>, CodecError>(CodecError::Snappy(error)),
                    }
                },
            CompressionCodec::ZStandard(_) => exists|o: Result<Vec<u8>, ZstdError>|
                {
                    &&& #[trigger] call_ensures(external::zstd_decompress, (block,), o)
                    &&& match o {
                        Ok(out) => r == Ok::<Vec<u8>, CodecError>(out),
                        Err(ZstdError::Setup(error)) => r == Err::<Vec<u8>, CodecError>(
                            CodecError::Io(error),
                        ),
                        Err(ZstdError::Stream(error)) => r == Err::<Vec<u8>, CodecError>(
                            CodecError::External(error),
                        ),
                        Err(ZstdError::Finish(_)) => false,
                    }
                },
            CompressionCodec::Bzip2(_) => exists|o: Result<Vec<u8>, std::io::Error>|
                {
                    &&& #[trigger] call_ensures(external::bzip2_decompress, (block,), o)
                    &&& match o {
                        Ok(out) => r == Ok::<Vec<u8>, CodecError>(out),
                        Err(error) => r == Err::<Vec<u8>, CodecError>(CodecError::External(error)),
                    }
                },
            CompressionCodec::Xz(_) => exists|o: Result<Vec<u8>, std::io::Error>|
                {
                    &&& #[trigger] call_ensures(external::xz_decompress, (block,), o)
                    &&& match o {
                        Ok(out) => r == Ok::<Vec<u8>, CodecError>(out),
                        Err(error) => r == Err::<Vec<u8>, CodecError>(CodecError::External(error)),
                    }
                },
        },
{
}

/// An error of a codec is one that the compressor of its format has returned when it
/// was given all of the data and the level, and what that compressor has written is
/// handed on, with a checksum behind a Snappy block.
pub(crate) proof fn lemma_compress_hands_on_the_result(
    codec: CompressionCodec,
    data: &[u8],
    r: Result<Vec<u8>, CodecError>,
)
    requires
        call_ensures(CompressionCodec::compress, (&codec, data), r),
    ensures
        match codec {
            CompressionCodec::Deflate(level) => exists|o: Result<Vec<u8>, std::io::Error>|
                {
                    &&& #[trigger] call_ensures(
                        external::deflate_compress,
                        (level.level(), data),
                        o,
                    )
                    &&& o matches Ok(out) && r == Ok::<Vec<u8>, CodecError>(out)
                },
            CompressionCodec::Snappy => exists|o: Result<Vec<u8>, snap::Error>|
                {
                    &&& #[trigger] call_ensures(external::snappy_compress, (data,), o)
                    &&& match o {
                        Ok(out) => r is Ok && r->Ok_0@.len() == out@.len() + 4
                            && r->Ok_0@.take(out@.len() as int) == out@,
                        Err(error) => r == Err::<Vec<u8>, CodecError>(CodecError::Snappy(error)),
                    }
                },
            CompressionCodec::ZStandard(level) => exists|o: Result<Vec<u8>, ZstdError>|
                {
                    &&& #[trigger] call_ensures(external::zstd_compress, (level.level(), data), o)
                    &&& match o {
                        Ok(out) => r == Ok::<Vec<u8>, CodecError>(out),
                        Err(ZstdError::Stream(error)) => r == Err::<Vec<u8>, CodecError>(
                            CodecError::Io(error),
                        ),
                        Err(ZstdError::Setup(error)) => r == Err::<Vec<u8>, CodecError>(
                            CodecError::External(error),
                        ),
                        Err(ZstdError::Finish(error)) => r == Err::<Vec<u8>, CodecError>(
                            CodecError::External(error),
                        ),
                    }
                },
            CompressionCodec::Bzip2(level) => exists|o: Result<Vec<u8>, std::io::Error>|
                {
                    &&& #[trigger] call_ensures(external::bzip2_compress, (level.level(), data), o)
                    &&& o matches Ok(out) && r == Ok::<Vec<u8>, CodecError>(out)
                },
            CompressionCodec::Xz(level) => exists|o: Result<Vec<u8>, std::io::Error>|
                {
                    &&& #[trigger] call_ensures(external::xz_compress, (level.level(), data), o)
                    &&& match o {
                        Ok(out) => r == Ok::<Vec<u8>, CodecError>(out),
                        Err(error) => r == Err::<Vec<u8>, CodecError>(CodecError::Io(error)),
                    }
                },
        },
{
    if codec is Snappy {
        let o = choose|o: Result<Vec<u8>, snap::Error>|
            {
                &&& #[trigger] call_ensures(external::snappy_compress, (data,), o)
                &&& match o {
                    Ok(out) => r is Ok && r->Ok_0@ == out@ + checksum::be_bytes(
                        checksum::crc32(data@),
                    ),
                    Err(error) => r == Err::<Vec<u8>, CodecError>(CodecError::Snappy(error)),
                }
            };
        if let Ok(out) = o {
            assert(r->Ok_0@.take(out@.len() as int) =~= out@);
        }
    }
}

/// Just the numbers from 0 to 9 are levels of Deflate. A level gives back the number
/// that it was made from, and this is what the compressor is given. The default is
/// 6.
pub proof fn lemma_deflate_level(level: u32, made: Result<DeflateLevel, LevelError>)
    requires
        call_ensures(DeflateLevel::try_new, (level,), made),
    ensures
        match made {
            Ok(valid) => {
                &&& 0 <= level <= 9
                &&& forall|n: u32| #[trigger]
                    call_ensures(DeflateLevel::compression_level, (&valid,), n) ==> n == level
                &&& forall|data: &[u8], r: Result<Vec<u8>, CodecError>| #[trigger]
                    call_ensures(
                        CompressionCodec::compress,
                        (&CompressionCodec::Deflate(valid), data),
                        r,
                    ) ==> (r is Ok && r->Ok_0@ == external::deflate_compressed(level, data@))
            },
            Err(error) => {
                &&& !(0 <= level <= 9)
                &&& error.level == level
                &&& error.minimum == 0
                &&& error.maximum == 9
            },
        },
        forall|valid: DeflateLevel, n: u32|
            #![trigger call_ensures(DeflateLevel::compression_level, (&valid,), n)]
            call_ensures(DeflateLevel::default, (), valid) && call_ensures(
                DeflateLevel::compression_level,
                (&valid,),
                n,
            ) ==> n == 6,
{
}

/// Just the numbers from 1 to 22 are levels of ZStandard. A level gives back the number
/// that it was made from, and this is what the compressor is given. The default is
/// 3.
pub proof fn lemma_zstd_level(level: i32, made: Result<ZstdLevel, LevelError>)
    requires
        call_ensures(ZstdLevel::try_new, (level,), made),
    ensures
        match made {
            Ok(valid) => {
                &&& 1 <= level <= 22
                &&& forall|n: i32| #[trigger]
                    call_ensures(ZstdLevel::compression_level, (&valid,), n) ==> n == level
                &&& forall|data: &[u8], r: Result<Vec<u8>, CodecError>| #[trigger]
                    call_ensures(
                        CompressionCodec::compress,
                        (&CompressionCodec::ZStandard(valid), data),
                        r,
                    ) ==> (r matches Ok(out) ==> out@ == external::zstd_compressed(level, data@))
            },
            Err(error) => {
                &&& !(1 <= level <= 22)
                &&& error.level == level
                &&& error.minimum == 1
                &&& error.maximum == 22
            },
        },
        forall|valid: ZstdLevel, n: i32|
            #![trigger call_ensures(ZstdLevel::compression_level, (&valid,), n)]
            call_ensures(ZstdLevel::default, (), valid) && call_ensures(
                ZstdLevel::compression_level,
                (&valid,),
                n,
            ) ==> n == 3,
{
}

/// Just the numbers from 1 to 9 are levels of Bzip2. A level gives back the number
/// that it was made from, and this is what the compressor is given. The default is
/// 9.
pub proof fn lemma_bzip2_level(level: u32, made: Result<Bzip2Level, LevelError>)
    requires
        call_ensures(Bzip2Level::try_new, (level,), made),
    ensures
        match made {
            Ok(valid) => {
                &&& 1 <= level <= 9
                &&& forall|n: u32| #[trigger]
                    call_ensures(Bzip2Level::compression_level, (&valid,), n) ==> n == level
                &&& forall|data: &[u8], r: Result<Vec<u8>, CodecError>| #[trigger]
                    call_ensures(
                        CompressionCodec::compress,
                        (&CompressionCodec::Bzip2(valid), data),
                        r,
                    ) ==> (r is Ok && r->Ok_0@ == external::bzip2_compressed(level, data@))
            },
            Err(error) => {
                &&& !(1 <= level <= 9)
                &&& error.level == level
                &&& error.minimum == 1
                &&& error.maximum == 9
            },
        },
        forall|valid: Bzip2Level, n: u32|
            #![trigger call_ensures(Bzip2Level::compression_level, (&valid,), n)]
            call_ensures(Bzip2Level::default, (), valid) && call_ensures(
                Bzip2Level::compression_level,
                (&valid,),
                n,
            ) ==> n == 9,
{
}

/// Just the numbers from 0 to 9 are levels of Xz. A level gives back the number
/// that it was made from, and this is what the compressor is given. The default is
/// 6.
pub proof fn lemma_xz_level(level: u32, made: Result<XzLevel, LevelError>)
    requires
        call_ensures(XzLevel::try_new, (level,), made),
    ensures
        match made {
            Ok(valid) => {
                &&& 0 <= level <= 9
                &&& forall|n: u32| #[trigger]
                    call_ensures(XzLevel::compression_level, (&valid,), n) ==> n == level
                &&& forall|data: &[u8], r: Result<Vec<u8>, CodecError>| #[trigger]
                    call_ensures(
                        CompressionCodec::compress,
                        (&CompressionCodec::Xz(valid), data),
                        r,
                    ) ==> (r matches Ok(out) ==> out@ == external::xz_compressed(level, data@))
            },
            Err(error) => {
                &&& !(0 <= level <= 9)
                &&& error.level == level
                &&& error.minimum == 0
                &&& error.maximum == 9
            },
        },
        forall|valid: XzLevel, n: u32|
            #![trigger call_ensures(XzLevel::compression_level, (&valid,), n)]
            call_ensures(XzLevel::default, (), valid) && call_ensures(
                XzLevel::compression_level,
                (&valid,),
                n,
            ) ==> n == 6,
{
}

/// The four bytes that are put behind a block are those that are looked for there,
/// and no others are.
pub proof fn lemma_checksum_is_found(
    block: Vec<u8>,
    data: &[u8],
    framed: Vec<u8>,
    other: &[u8],
    trailer: &[u8],
    same: bool,
)
    requires
        call_ensures(checksum::append_checksum, (block, data), framed),
        trailer@.len() == 4,
        call_ensures(checksum::checksum_matches, (other, trailer), same),
    ensures
        framed@.len() == block@.len() + 4,
        framed@.take(block@.len() as int) == block@,
        other@ == data@ ==> (same <==> trailer@ == framed@.skip(block@.len() as int)),
        ({
            let sum = checksum::crc32(other@);
            same <==> trailer@ == seq![
                (sum / 0x1000000) as u8,
                (sum / 0x10000 % 0x100) as u8,
                (sum / 0x100 % 0x100) as u8,
                (sum % 0x100) as u8,
            ]
        }),
{
    let sum = checksum::crc32(data@);
    assert(framed@.take(block@.len() as int) =~= block@);
    assert(framed@.skip(block@.len() as int) =~= checksum::be_bytes(sum));
}

/// What a compressor or decompressor has read or written is handed on as it is, and
/// its errors keep their cause.
pub proof fn lemma_results_are_handed_on(
    stream: Result<Vec<u8>, std::io::Error>,
    zstd: Result<Vec<u8>, ZstdError>,
    decoded: Vec<u8>,
    crc: &[u8],
    io: Result<Vec<u8>, CodecError>,
    own: Result<Vec<u8>, CodecError>,
    encoder: Result<Vec<u8>, CodecError>,
    decoder: Result<Vec<u8>, CodecError>,
    held: Result<Vec<u8>, CodecError>,
)
    requires
        call_ensures(stream_result, (stream,), io),
        call_ensures(external_result, (stream,), own),
        call_ensures(zstd_encoded, (zstd,), encoder),
        call_ensures(zstd_decoded, (zstd,), decoder),
        crc@.len() == 4,
        call_ensures(check_decoded, (decoded, crc), held),
    ensures
        match stream {
            Ok(out) => io == Ok::<Vec<u8>, CodecError>(out) && own == Ok::<Vec<u8>, CodecError>(
                out,
            ),
            Err(error) => {
                &&& io == Err::<Vec<u8>, CodecError>(CodecError::Io(error))
                &&& own == Err::<Vec<u8>, CodecError>(CodecError::External(error))
            },
        },
        match zstd {
            Ok(out) => {
                &&& encoder == Ok::<Vec<u8>, CodecError>(out)
                &&& decoder == Ok::<Vec<u8>, CodecError>(out)
            },
            Err(ZstdError::Setup(error)) => {
                &&& encoder == Err::<Vec<u8>, CodecError>(CodecError::External(error))
                &&& decoder == Err::<Vec<u8>, CodecError>(CodecError::Io(error))
            },
            Err(ZstdError::Stream(error)) => {
                &&& encoder == Err::<Vec<u8>, CodecError>(CodecError::Io(error))
                &&& decoder == Err::<Vec<u8>, CodecError>(CodecError::External(error))
            },
            Err(ZstdError::Finish(error)) => {
                &&& encoder == Err::<Vec<u8>, CodecError>(CodecError::External(error))
                &&& decoder == Err::<Vec<u8>, CodecError>(CodecError::External(error))
            },
        },
        ({
            let sum = checksum::crc32(decoded@);
            if crc@ == seq![
                (sum / 0x1000000) as u8,
                (sum / 0x10000 % 0x100) as u8,
                (sum / 0x100 % 0x100) as u8,
                (sum % 0x100) as u8,
            ] {
                held == Ok::<Vec<u8>, CodecError>(decoded)
            } else {
                held == Err::<Vec<u8>, CodecError>(CodecError::CrcMismatch)
            }
        }),
{
}

/// What the error for a level says: the level, and the range that it is not in.
pub proof fn lemma_level_error_text(error: LevelError, text: String)
    requires
        call_ensures(LevelError::to_string, (&error,), text),
    ensures
        text@ == "Invalid argument error: compression level "@ + decimal::signed_decimal(
            error.level as int,
        ) + " out of range "@ + decimal::signed_decimal(error.minimum as int) + "..="@
            + decimal::signed_decimal(error.maximum as int),
{
}

/// All data can be compressed, and all blocks decompressed, but for those of Snappy
/// that are too short for a checksum.
pub proof fn lemma_codecs_take_all_bytes(codec: CompressionCodec, bytes: &[u8])
    ensures
        call_requires(CompressionCodec::compress, (&codec, bytes)),
        codec is Snappy ==> bytes@.len() >= 4 ==> call_requires(
            CompressionCodec::decompress,
            (&codec, bytes),
        ),
        !(codec is Snappy) ==> call_requires(CompressionCodec::decompress, (&codec, bytes)),
{
}

} // verus!
