# arrow_io

Row-oriented input and output for columnar data, verified with Verus.

The library in `src/` has three parts:

- `csv` decodes CSV bytes, fed in pieces of any size, into rows with a fixed
  number of columns. `csv::model` says what a decoder does with each byte,
  `csv::records` is the decoder, `csv::flush` hands out the rows it has buffered,
  and `csv::string_records` holds them as text. Three modules state what holds of
  all input: `csv::parsing` which rows come of which records, `csv::laws` what
  cutting the input or clearing the decoder changes, and `csv::history` what has
  been counted after any number of calls. The bytes themselves are told apart by the `csv_core`
  crate; `csv::reader` says what is relied on there.
- `compression` compresses and decompresses Avro data blocks. The compressors are
  those of other crates, named in `compression::external`; levels, framing and
  checksums are verified.
- `writer` collects encoded rows into the blocks of an Avro object container file.
  It performs no output itself: it says what is to be written next, and is told
  how that went. `writer::laws` states what holds of the blocks.

What is taken on trust is marked `#[verifier::external_body]` or
`assume_specification`, with a comment on what is relied on.

`app/` holds the asynchronous Avro writer around the library: sinks, encoders of
record batches, and the loop that performs the writes. `tests/` runs the library
with the crates that it depends on.
