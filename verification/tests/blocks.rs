//! Collecting encoded rows into blocks.

use arrow_io::compression::codec::CompressionCodec;
use arrow_io::compression::level::{Bzip2Level, DeflateLevel, XzLevel, ZstdLevel};
use arrow_io::writer::block::{Action, BlockWriter, Target, WriteError};
use arrow_io::writer::long::write_long;

const SYNC: [u8; 16] = [7; 16];

fn long(value: i64) -> Vec<u8> {
    let mut out = Vec::new();
    write_long(&mut out, value);
    out
}

#[test]
fn longs_are_zigzag_varints() {
    assert_eq!(long(0), [0]);
    assert_eq!(long(-1), [1]);
    assert_eq!(long(1), [2]);
    assert_eq!(long(-2), [3]);
    assert_eq!(long(63), [0x7e]);
    assert_eq!(long(-64), [0x7f]);
    assert_eq!(long(64), [0x80, 0x01]);
    assert_eq!(long(-65), [0x81, 0x01]);
    assert_eq!(long(8191), [0xfe, 0x7f]);
    assert_eq!(long(8192), [0x80, 0x80, 0x01]);
    assert_eq!(
        long(i64::MAX),
        [0xfe, 0xff, 0xff, 0xff, 0xff, 0xff, 0xff, 0xff, 0xff, 0x01]
    );
    assert_eq!(
        long(i64::MIN),
        [0xff, 0xff, 0xff, 0xff, 0xff, 0xff, 0xff, 0xff, 0xff, 0x01]
    );
}

#[test]
fn longs_are_appended() {
    let mut out = vec![9];
    write_long(&mut out, 3);
    write_long(&mut out, -3);
    assert_eq!(out, [9, 6, 5]);
}

/// Reads an integer, and returns it with what follows.
fn read_long(bytes: &[u8]) -> (i64, &[u8]) {
    let mut n: u64 = 0;
    let mut i = 0;
    loop {
        n |= ((bytes[i] & 0x7f) as u64) << (7 * i);
        i += 1;
        if bytes[i - 1] < 0x80 {
            return (((n >> 1) as i64) ^ -((n & 1) as i64), &bytes[i..]);
        }
    }
}

#[test]
fn longs_read_back() {
    for value in [0, 1, -1, 63, 64, -64, -65, 300, -300, i64::MAX, i64::MIN] {
        let mut bytes = long(value);
        bytes.push(0xff);
        let (read, rest) = read_long(&bytes);
        assert_eq!(read, value);
        assert_eq!(rest, [0xff]);
    }
}

/// A sink in memory that drives a writer of blocks. It refuses a write when
/// `budget` has run out.
struct Sink {
    writer: BlockWriter<&'static str>,
    out: Vec<u8>,
    writes: usize,
    completed: bool,
    budget: usize,
}

impl Sink {
    fn new(
        sync: Option<[u8; 16]>,
        compression: Option<CompressionCodec>,
        block_size: usize,
    ) -> Self {
        Sink {
            writer: BlockWriter::from_parts("schema", sync, compression, block_size, 64),
            out: Vec::new(),
            writes: 0,
            completed: false,
            budget: usize::MAX,
        }
    }

    fn perform(&mut self, mut action: Action) -> Result<(), &'static str> {
        loop {
            match action {
                Action::Write(bytes) => {
                    if self.writes == self.budget {
                        self.writer.abandon();
                        return Err("refused");
                    }
                    self.writes += 1;
                    self.out.extend_from_slice(&bytes);
                    action = self.writer.advance();
                }
                Action::Complete => {
                    self.completed = true;
                    return Ok(());
                }
                Action::Done => return Ok(()),
            }
        }
    }

    fn write(&mut self, rows: usize, encoded: &[u8]) -> Result<(), &'static str> {
        let action = match self.writer.write(&"schema").unwrap() {
            Target::Block => {
                self.writer.block_buf.extend_from_slice(encoded);
                self.writer.encoded(rows).unwrap()
            }
            Target::Stream => self.writer.stream(encoded.to_vec()),
        };
        self.perform(action)
    }

    fn finish(&mut self) -> Result<(), &'static str> {
        let action = self.writer.finish().unwrap();
        self.perform(action)
    }
}

/// The rows and the contents of the blocks in `bytes`.
fn blocks(mut bytes: &[u8]) -> Vec<(i64, Vec<u8>)> {
    let mut found = Vec::new();
    while !bytes.is_empty() {
        let (rows, rest) = read_long(bytes);
        let (len, rest) = read_long(rest);
        let len = len as usize;
        assert_eq!(rest[len..len + 16], SYNC);
        found.push((rows, rest[..len].to_vec()));
        bytes = &rest[len + 16..];
    }
    found
}

#[test]
fn small_batches_share_one_block() {
    let mut sink = Sink::new(Some(SYNC), None, 65536);
    for i in 0..32u8 {
        sink.write(2, &[i, i + 1]).unwrap();
        assert!(sink.out.is_empty());
    }
    assert_eq!(sink.writer.block_rows, 64);
    sink.finish().unwrap();
    assert!(sink.completed);
    assert_eq!(sink.writes, 3);
    let found = blocks(&sink.out);
    assert_eq!(found.len(), 1);
    assert_eq!(found[0].0, 64);
    let data: Vec<u8> = (0..32u8).flat_map(|i| [i, i + 1]).collect();
    assert_eq!(found[0].1, data);
}

#[test]
fn block_size_zero_flushes_per_batch() {
    let mut sink = Sink::new(Some(SYNC), None, 0);
    for i in 0..4u8 {
        sink.write(3, &[i; 3]).unwrap();
        assert_eq!(sink.writer.block_rows, 0);
        assert!(sink.writer.block_buf.is_empty());
    }
    sink.finish().unwrap();
    let expected: Vec<(i64, Vec<u8>)> = (0..4u8).map(|i| (3, vec![i; 3])).collect();
    assert_eq!(blocks(&sink.out), expected);
    assert_eq!(sink.writes, 12);
}

#[test]
fn a_block_is_written_byte_for_byte() {
    let mut sink = Sink::new(Some(SYNC), None, 3);
    sink.write(2, b"abc").unwrap();
    assert_eq!(sink.out, [&[4u8, 6][..], b"abc", &SYNC[..]].concat());
}

#[test]
fn a_block_starts_at_its_size() {
    let mut sink = Sink::new(Some(SYNC), None, 4);
    sink.write(1, b"abc").unwrap();
    assert!(sink.out.is_empty());
    sink.write(1, b"d").unwrap();
    assert_eq!(blocks(&sink.out), [(2, b"abcd".to_vec())]);
    sink.write(1, b"efghi").unwrap();
    sink.finish().unwrap();
    assert_eq!(
        blocks(&sink.out),
        [(2, b"abcd".to_vec()), (1, b"efghi".to_vec())]
    );
}

#[test]
fn no_rows_make_no_block() {
    let mut sink = Sink::new(Some(SYNC), None, 0);
    sink.write(0, b"").unwrap();
    sink.finish().unwrap();
    assert!(sink.completed);
    assert_eq!(sink.writes, 0);
}

#[test]
fn compressed_blocks_hold_the_compressed_rows() {
    let codec = CompressionCodec::Deflate(DeflateLevel::default());
    let data = vec![5u8; 1000];
    let mut sink = Sink::new(Some(SYNC), Some(codec), 1000);
    sink.write(10, &data).unwrap();
    assert_eq!(sink.writer.block_rows, 0);
    assert!(sink.writer.block_buf.is_empty());
    sink.finish().unwrap();
    let found = blocks(&sink.out);
    assert_eq!(found.len(), 1);
    assert_eq!(found[0].0, 10);
    assert!(found[0].1.len() < data.len());
    assert_eq!(codec.decompress(&found[0].1).unwrap(), data);
}

#[test]
fn streams_are_written_as_they_come() {
    let mut sink = Sink::new(None, None, 0);
    sink.write(1, b"abc").unwrap();
    sink.write(1, b"de").unwrap();
    assert_eq!(sink.out, b"abcde");
    sink.finish().unwrap();
    assert!(sink.completed);
    assert_eq!(sink.writes, 2);
    assert!(sink.writer.sync_marker().is_none());
}

#[test]
fn other_columns_are_refused() {
    let writer = BlockWriter::from_parts("schema", Some(SYNC), None, 0, 0);
    assert!(matches!(
        writer.write(&"another"),
        Err(WriteError::SchemaMismatch)
    ));
    assert_eq!(writer.write(&"schema").unwrap(), Target::Block);
    assert_eq!(*writer.schema(), "schema");
    assert_eq!(writer.sync_marker(), Some(&SYNC));
}

#[test]
fn a_refused_write_keeps_the_count() {
    let mut sink = Sink::new(Some(SYNC), None, 3);
    sink.budget = 1;
    assert!(sink.write(2, b"abc").is_err());
    // the contents had moved into the block that was on its way
    assert_eq!(sink.writer.block_rows, 2);
    assert!(sink.writer.block_buf.is_empty());
}

#[test]
fn a_refused_write_keeps_compressed_rows() {
    let mut sink = Sink::new(Some(SYNC), Some(CompressionCodec::Snappy), 3);
    sink.budget = 2;
    assert!(sink.write(2, b"abc").is_err());
    assert_eq!(sink.writer.block_rows, 2);
    assert_eq!(sink.writer.block_buf, b"abc");
}

#[test]
fn blocks_go_out_with_every_codec() {
    let codecs = [
        CompressionCodec::Deflate(DeflateLevel::default()),
        CompressionCodec::Snappy,
        CompressionCodec::ZStandard(ZstdLevel::default()),
        CompressionCodec::Bzip2(Bzip2Level::default()),
        CompressionCodec::Xz(XzLevel::default()),
    ];
    for codec in codecs {
        let mut sink = Sink::new(Some(SYNC), Some(codec), 5);
        sink.write(1, b"abc").unwrap();
        assert_eq!(sink.writes, 0);
        sink.write(2, b"defg").unwrap();
        assert_eq!(sink.writes, 3);
        sink.write(4, b"hi").unwrap();
        sink.finish().unwrap();
        assert_eq!(sink.writes, 6);
        assert!(sink.completed);
        let found: Vec<(i64, Vec<u8>)> = blocks(&sink.out)
            .into_iter()
            .map(|(rows, payload)| (rows, codec.decompress(&payload).unwrap()))
            .collect();
        assert_eq!(found, [(3, b"abcdefg".to_vec()), (4, b"hi".to_vec())]);
        // nothing waits any more
        sink.finish().unwrap();
        assert_eq!(sink.writes, 6);
    }
}
