//! Compression levels and codecs.

use arrow_io::compression::checksum::{append_checksum, checksum_matches};
use arrow_io::compression::codec::{
    check_decoded, external_result, stream_result, zstd_decoded, zstd_encoded, CodecError,
    CompressionCodec, CODEC_METADATA_KEY,
};
use arrow_io::compression::external::ZstdError;
use arrow_io::compression::level::{Bzip2Level, DeflateLevel, XzLevel, ZstdLevel};

#[test]
fn deflate_level_range() {
    assert_eq!(DeflateLevel::default().compression_level(), 6);
    assert_eq!(DeflateLevel::try_new(0).unwrap().compression_level(), 0);
    assert_eq!(DeflateLevel::try_new(9).unwrap().compression_level(), 9);
    assert!(DeflateLevel::try_new(10).is_err());
}

#[test]
fn zstd_level_range() {
    assert_eq!(ZstdLevel::default().compression_level(), 3);
    assert!(ZstdLevel::try_new(0).is_err());
    assert_eq!(ZstdLevel::try_new(1).unwrap().compression_level(), 1);
    assert_eq!(ZstdLevel::try_new(22).unwrap().compression_level(), 22);
    assert!(ZstdLevel::try_new(23).is_err());
}

#[test]
fn bzip2_level_range() {
    assert_eq!(Bzip2Level::default().compression_level(), 9);
    assert!(Bzip2Level::try_new(0).is_err());
    assert_eq!(Bzip2Level::try_new(1).unwrap().compression_level(), 1);
    assert_eq!(Bzip2Level::try_new(9).unwrap().compression_level(), 9);
    assert!(Bzip2Level::try_new(10).is_err());
}

#[test]
fn xz_level_range() {
    assert_eq!(XzLevel::default().compression_level(), 6);
    assert_eq!(XzLevel::try_new(0).unwrap().compression_level(), 0);
    assert_eq!(XzLevel::try_new(9).unwrap().compression_level(), 9);
    assert!(XzLevel::try_new(10).is_err());
}

/// Higher deflate levels should produce strictly-no-larger output than
/// lower levels on data with redundancy. Round-tripping at any level
/// must yield identical bytes.
#[test]
fn deflate_levels_produce_smaller_output_at_higher_setting() {
    // Repeating payload so the level actually matters.
    let data: Vec<u8> = (0..4096).flat_map(|i: u32| i.to_le_bytes()).collect();

    let fast = CompressionCodec::Deflate(DeflateLevel::try_new(1).unwrap())
        .compress(&data)
        .unwrap();
    let best = CompressionCodec::Deflate(DeflateLevel::try_new(9).unwrap())
        .compress(&data)
        .unwrap();

    assert!(
        best.len() <= fast.len(),
        "level 9 ({} bytes) should not exceed level 1 ({} bytes)",
        best.len(),
        fast.len()
    );

    for raw in [&fast, &best] {
        let round_trip = CompressionCodec::Deflate(DeflateLevel::default())
            .decompress(raw)
            .unwrap();
        assert_eq!(round_trip, data);
    }
}

#[test]
fn level_errors_name_the_range() {
    assert_eq!(
        DeflateLevel::try_new(10).unwrap_err().to_string(),
        "Invalid argument error: compression level 10 out of range 0..=9"
    );
    assert_eq!(
        ZstdLevel::try_new(-5).unwrap_err().to_string(),
        "Invalid argument error: compression level -5 out of range 1..=22"
    );
    assert_eq!(
        Bzip2Level::try_new(0).unwrap_err().to_string(),
        "Invalid argument error: compression level 0 out of range 1..=9"
    );
    assert_eq!(
        XzLevel::try_new(4294967295).unwrap_err().to_string(),
        "Invalid argument error: compression level 4294967295 out of range 0..=9"
    );
}

#[test]
fn metadata_key() {
    assert_eq!(CODEC_METADATA_KEY, "avro.codec");
}

fn redundant() -> Vec<u8> {
    (0..20_000u32).map(|i| (i % 7) as u8).collect()
}

/// Compressing makes redundant data smaller, and decompressing gives them back,
/// at whatever level.
fn round_trip(writer: CompressionCodec, reader: CompressionCodec) {
    let data = redundant();
    let block = writer.compress(&data).unwrap();
    assert!(block.len() < data.len());
    assert_eq!(reader.decompress(&block).unwrap(), data);

    let block = writer.compress(&[]).unwrap();
    assert!(!block.is_empty());
    assert!(reader.decompress(&block).unwrap().is_empty());
}

#[test]
fn deflate_round_trip_at_all_levels() {
    for level in 1..=9 {
        round_trip(
            CompressionCodec::Deflate(DeflateLevel::try_new(level).unwrap()),
            CompressionCodec::Deflate(DeflateLevel::default()),
        );
    }
}

#[test]
fn deflate_level_zero_stores() {
    let data = redundant();
    let codec = CompressionCodec::Deflate(DeflateLevel::try_new(0).unwrap());
    let block = codec.compress(&data).unwrap();
    assert!(block.len() >= data.len());
    assert_eq!(codec.decompress(&block).unwrap(), data);
}

#[test]
fn zstd_round_trip_at_all_levels() {
    for level in 1..=22 {
        round_trip(
            CompressionCodec::ZStandard(ZstdLevel::try_new(level).unwrap()),
            CompressionCodec::ZStandard(ZstdLevel::default()),
        );
    }
}

#[test]
fn bzip2_round_trip_at_all_levels() {
    for level in 1..=9 {
        round_trip(
            CompressionCodec::Bzip2(Bzip2Level::try_new(level).unwrap()),
            CompressionCodec::Bzip2(Bzip2Level::default()),
        );
    }
}

#[test]
fn xz_round_trip_at_all_levels() {
    for level in 0..=9 {
        round_trip(
            CompressionCodec::Xz(XzLevel::try_new(level).unwrap()),
            CompressionCodec::Xz(XzLevel::default()),
        );
    }
}

#[test]
fn snappy_round_trip() {
    round_trip(CompressionCodec::Snappy, CompressionCodec::Snappy);
}

#[test]
fn same_input_gives_same_block() {
    let data = redundant();
    let codecs = [
        CompressionCodec::Deflate(DeflateLevel::default()),
        CompressionCodec::Snappy,
        CompressionCodec::ZStandard(ZstdLevel::default()),
        CompressionCodec::Bzip2(Bzip2Level::default()),
        CompressionCodec::Xz(XzLevel::default()),
    ];
    for codec in codecs {
        assert_eq!(codec.compress(&data).unwrap(), codec.compress(&data).unwrap());
    }
}

#[test]
fn snappy_block_ends_with_the_big_endian_checksum() {
    let block = CompressionCodec::Snappy.compress(b"123456789").unwrap();
    // the length, one literal of nine bytes, and the check value of CRC-32
    assert_eq!(
        block,
        [&[9u8, 8 << 2][..], b"123456789", &[0xcb, 0xf4, 0x39, 0x26][..]].concat()
    );
    let empty = CompressionCodec::Snappy.compress(b"").unwrap();
    assert_eq!(empty, [0, 0, 0, 0, 0]);
}

#[test]
fn snappy_checksum_mismatch_is_refused() {
    let mut block = CompressionCodec::Snappy.compress(b"123456789").unwrap();
    *block.last_mut().unwrap() ^= 1;
    let error = CompressionCodec::Snappy.decompress(&block).unwrap_err();
    assert!(matches!(error, CodecError::CrcMismatch));
}

#[test]
fn snappy_corrupt_block_is_refused() {
    // only a checksum, and no block in front of it
    let error = CompressionCodec::Snappy.decompress(&[0, 0, 0, 0]).unwrap_err();
    assert!(matches!(error, CodecError::Snappy(snap::Error::Empty)));
    let error = CompressionCodec::Snappy
        .decompress(&[9, 8 << 2, b'1', 0, 0, 0, 0])
        .unwrap_err();
    assert!(matches!(error, CodecError::Snappy(_)));
}

#[test]
fn corrupt_streams_are_refused() {
    let codecs = [
        CompressionCodec::Deflate(DeflateLevel::default()),
        CompressionCodec::ZStandard(ZstdLevel::default()),
        CompressionCodec::Bzip2(Bzip2Level::default()),
        CompressionCodec::Xz(XzLevel::default()),
    ];
    for codec in codecs {
        let block = codec.compress(&redundant()).unwrap();
        for bytes in [&[0xff; 40][..], &block[..block.len() / 2]] {
            let error = codec.decompress(bytes).unwrap_err();
            match codec {
                CompressionCodec::Deflate(_) => assert!(matches!(error, CodecError::Io(_))),
                _ => assert!(matches!(error, CodecError::External(_))),
            }
        }
    }
}

#[test]
fn errors_of_streams_are_told_apart() {
    let error = || std::io::Error::from(std::io::ErrorKind::Other);
    assert_eq!(stream_result(Ok(vec![1])).unwrap(), [1]);
    assert!(matches!(stream_result(Err(error())), Err(CodecError::Io(_))));
    assert_eq!(external_result(Ok(vec![2])).unwrap(), [2]);
    assert!(matches!(external_result(Err(error())), Err(CodecError::External(_))));
    assert_eq!(zstd_encoded(Ok(vec![3])).unwrap(), [3]);
    assert!(matches!(
        zstd_encoded(Err(ZstdError::Setup(error()))),
        Err(CodecError::External(_))
    ));
    assert!(matches!(
        zstd_encoded(Err(ZstdError::Stream(error()))),
        Err(CodecError::Io(_))
    ));
    assert!(matches!(
        zstd_encoded(Err(ZstdError::Finish(error()))),
        Err(CodecError::External(_))
    ));
    assert_eq!(zstd_decoded(Ok(vec![4])).unwrap(), [4]);
    assert!(matches!(
        zstd_decoded(Err(ZstdError::Setup(error()))),
        Err(CodecError::Io(_))
    ));
    assert!(matches!(
        zstd_decoded(Err(ZstdError::Stream(error()))),
        Err(CodecError::External(_))
    ));
}

#[test]
fn checksums_of_known_data() {
    let framed = append_checksum(vec![1, 2], b"The quick brown fox jumps over the lazy dog");
    assert_eq!(framed, [1, 2, 0x41, 0x4f, 0xa3, 0x39]);
    assert_eq!(append_checksum(vec![], b""), [0, 0, 0, 0]);
    assert!(checksum_matches(b"123456789", &[0xcb, 0xf4, 0x39, 0x26]));
    assert!(!checksum_matches(b"123456789", &[0x26, 0x39, 0xf4, 0xcb]));
}

#[test]
fn decoded_data_are_held_against_the_checksum() {
    let data = b"123456789".to_vec();
    assert_eq!(
        check_decoded(data.clone(), &[0xcb, 0xf4, 0x39, 0x26]).unwrap(),
        data
    );
    assert!(matches!(
        check_decoded(data, &[0xcb, 0xf4, 0x39, 0x27]),
        Err(CodecError::CrcMismatch)
    ));
}
