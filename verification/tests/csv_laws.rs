//! What holds of a record decoder however it is fed.

use arrow_io::csv::error::CsvError;
use arrow_io::csv::records::RecordDecoder;
use csv_core::{Reader, ReaderBuilder};

const ROWS: &[u8] = b"a,\"b,\"\"c\"\"\",d\r\n\"multi\nline\",,\nx,y,z\n\n,,last\n";

fn fields(decoder: &mut RecordDecoder, columns: usize) -> Vec<Vec<String>> {
    let records = decoder.flush().unwrap();
    let count = records.len();
    let rows: Vec<Vec<String>> = records
        .iter()
        .map(|record| (0..columns).map(|i| record.get(i).to_string()).collect())
        .collect();
    assert_eq!(rows.len(), count);
    rows
}

#[test]
fn rows_come_back_in_order() {
    let mut decoder = RecordDecoder::with_default_reader(3, false, false);
    assert!(decoder.is_empty());
    let (read, bytes) = decoder.decode(ROWS, 10).unwrap();
    assert_eq!((read, bytes), (4, ROWS.len()));
    assert_eq!(decoder.len(), 4);
    assert!(!decoder.is_empty());
    assert_eq!(
        fields(&mut decoder, 3),
        [
            ["a", "b,\"c\"", "d"],
            ["multi\nline", "", ""],
            ["x", "y", "z"],
            ["", "", "last"]
        ]
    );
    assert!(decoder.is_empty());
}

#[test]
fn pieces_decode_as_the_whole() {
    let mut whole = RecordDecoder::with_default_reader(3, false, false);
    assert_eq!(whole.decode(ROWS, 10).unwrap(), (4, ROWS.len()));
    let expected = fields(&mut whole, 3);
    for split in 1..ROWS.len() {
        let mut decoder = RecordDecoder::with_default_reader(3, false, false);
        let (first, bytes) = decoder.decode(&ROWS[..split], 10).unwrap();
        assert_eq!(bytes, split);
        let (second, bytes) = decoder.decode(&ROWS[split..], 10 - first).unwrap();
        assert_eq!(first + second, 4);
        assert_eq!(bytes, ROWS.len() - split);
        assert_eq!(fields(&mut decoder, 3), expected);
    }
}

#[test]
fn pieces_decode_as_the_whole_where_extra_columns_are_ignored() {
    let csv = b"a,b,c,d,e\nf,g\nh,i,j\nk,l,m,n\n";
    let mut whole = RecordDecoder::with_default_reader(2, false, true);
    assert_eq!(whole.decode(csv, 4).unwrap(), (4, csv.len()));
    assert_eq!(whole.extra_column_row_count(), 3);
    let expected = fields(&mut whole, 2);
    assert_eq!(expected, [["a", "b"], ["f", "g"], ["h", "i"], ["k", "l"]]);
    for split in 1..csv.len() {
        let mut decoder = RecordDecoder::with_default_reader(2, false, true);
        let (first, bytes) = decoder.decode(&csv[..split], 4).unwrap();
        assert_eq!(bytes, split);
        let (second, bytes) = decoder.decode(&csv[split..], 4 - first).unwrap();
        assert_eq!(first + second, 4);
        assert_eq!(bytes, csv.len() - split);
        assert_eq!(decoder.extra_column_row_count(), 3);
        assert_eq!(fields(&mut decoder, 2), expected);
    }
}

#[test]
fn enough_rows_end_a_call() {
    let mut decoder = RecordDecoder::with_default_reader(2, false, false);
    assert_eq!(decoder.decode(b"a,b\nc,d\ne,f\n", 2).unwrap(), (2, 8));
    assert_eq!(decoder.decode(b"e,f\n", 0).unwrap(), (0, 0));
    assert_eq!(decoder.decode(b"e,f\n", 5).unwrap(), (1, 4));
    assert_eq!(decoder.len(), 3);
}

#[test]
fn the_end_of_input_completes_a_record() {
    let mut decoder = RecordDecoder::with_default_reader(2, false, false);
    assert_eq!(decoder.decode(b"a,b\nc,d", 5).unwrap(), (1, 7));
    assert_eq!(decoder.decode(b"", 4).unwrap(), (1, 0));
    assert_eq!(decoder.decode(b"", 3).unwrap(), (0, 0));
    assert_eq!(fields(&mut decoder, 2), [["a", "b"], ["c", "d"]]);
}

#[test]
fn a_byte_order_mark_is_dropped() {
    let mut decoder = RecordDecoder::with_default_reader(1, false, false);
    let csv = b"\xef\xbb\xbfa\n\xef\xbb\xbfb\n";
    assert_eq!(decoder.decode(csv, 2).unwrap(), (2, csv.len()));
    assert_eq!(fields(&mut decoder, 1), [["a"], ["\u{feff}b"]]);

    // one that is cut in two stays
    let mut decoder = RecordDecoder::with_default_reader(1, false, false);
    decoder.decode(&csv[..2], 1).unwrap();
    decoder.decode(&csv[2..5], 1).unwrap();
    assert_eq!(fields(&mut decoder, 1), [["\u{feff}a"]]);
}

#[test]
fn a_long_field_makes_the_buffer_grow() {
    let long = "0123456789".repeat(1000);
    let csv = format!("{long},b\nc,{long}\n");
    let mut decoder = RecordDecoder::with_default_reader(2, false, false);
    assert_eq!(decoder.decode(csv.as_bytes(), 2).unwrap(), (2, csv.len()));
    assert_eq!(
        fields(&mut decoder, 2),
        [[long.as_str(), "b"], ["c", long.as_str()]]
    );
}

#[test]
fn other_delimiters_are_up_to_the_reader() {
    let reader = ReaderBuilder::new().delimiter(b'\t').build();
    let mut decoder = RecordDecoder::new(reader, 2, false, false);
    assert_eq!(decoder.decode(b"a,b\tc\n", 1).unwrap(), (1, 6));
    assert_eq!(fields(&mut decoder, 2), [["a,b", "c"]]);
}

#[test]
fn clearing_drops_rows_but_not_the_record_being_read() {
    let mut decoder = RecordDecoder::new(Reader::new(), 2, true, false);
    assert_eq!(decoder.decode(b"a,b\nc\nlong,be", 5).unwrap(), (2, 13));
    assert_eq!(decoder.truncated_row_count(), 1);
    decoder.clear();
    assert_eq!(decoder.len(), 0);
    assert_eq!(decoder.truncated_row_count(), 0);
    assert_eq!(decoder.decode(b"low\nx,y\n", 5).unwrap(), (2, 8));
    assert_eq!(fields(&mut decoder, 2), [["long", "below"], ["x", "y"]]);
}

#[test]
fn flushing_leaves_the_counts() {
    let mut decoder = RecordDecoder::new(Reader::new(), 2, true, true);
    assert_eq!(decoder.decode(b"a\nb,c,d\n", 2).unwrap(), (2, 8));
    decoder.flush().unwrap();
    assert_eq!(decoder.len(), 0);
    assert_eq!(
        (
            decoder.truncated_row_count(),
            decoder.extra_column_row_count()
        ),
        (1, 1)
    );
}

#[test]
fn wrong_numbers_of_fields() {
    let mut decoder = RecordDecoder::new(Reader::new(), 2, false, false);
    assert_eq!(
        decoder.decode(b"a,b\nc\n", 2).unwrap_err(),
        CsvError::IncorrectFields {
            line: 2,
            expected: 2,
            got: 1
        }
    );
    let mut decoder = RecordDecoder::new(Reader::new(), 2, false, false);
    assert_eq!(
        decoder.decode(b"a,b,c,d\n", 1).unwrap_err(),
        CsvError::TooManyFields {
            line: 1,
            expected: 2,
            more_than: 2
        }
    );
    // at the end of all input
    let mut decoder = RecordDecoder::new(Reader::new(), 2, false, false);
    assert_eq!(decoder.decode(b"a", 1).unwrap(), (0, 1));
    assert_eq!(
        decoder.decode(b"", 1).unwrap_err().to_string(),
        "Csv error: incorrect number of fields for line 1, expected 2 got 1"
    );
}

#[test]
fn padding_is_not_for_rows_that_are_too_long() {
    let mut decoder = RecordDecoder::new(Reader::new(), 2, true, false);
    assert_eq!(
        decoder.decode(b"a\nb,c,d\n", 3).unwrap_err(),
        CsvError::IncorrectFields {
            line: 2,
            expected: 2,
            got: 3
        }
    );
    assert_eq!(decoder.truncated_row_count(), 1);
}

#[test]
fn dropping_is_not_for_rows_that_are_too_short() {
    let mut decoder = RecordDecoder::new(Reader::new(), 2, false, true);
    assert_eq!(
        decoder.decode(b"a,b,c\nd\n", 3).unwrap_err(),
        CsvError::IncorrectFields {
            line: 2,
            expected: 2,
            got: 1
        }
    );
    assert_eq!(decoder.extra_column_row_count(), 1);
}

#[test]
fn invalid_utf8_is_located() {
    let mut decoder = RecordDecoder::new(Reader::new(), 2, false, false);
    decoder.decode(b"a,b\nc,\xff\n", 2).unwrap();
    let error = decoder.flush().unwrap_err();
    assert_eq!(error, CsvError::InvalidUtf8 { line: 2, field: 2 });
    assert_eq!(
        error.to_string(),
        "Csv error: Encountered invalid UTF-8 data for line 2 and field 2"
    );

    // behind empty fields, and behind rows that were flushed earlier
    let mut decoder = RecordDecoder::new(Reader::new(), 3, false, false);
    decoder.decode(b"a,b,c\n", 1).unwrap();
    decoder.flush().unwrap();
    decoder.decode(b",,\n,,\xc3\xa9\xc3\n", 2).unwrap();
    assert_eq!(
        decoder.flush().unwrap_err(),
        CsvError::InvalidUtf8 { line: 3, field: 3 }
    );
}

#[test]
fn a_character_must_not_be_cut_by_a_delimiter() {
    let mut decoder = RecordDecoder::new(Reader::new(), 2, false, false);
    decoder.decode(b"a,b\n\xc3,\xa9\n", 2).unwrap();
    assert_eq!(
        decoder.flush().unwrap_err(),
        CsvError::InvalidUtf8 { line: 2, field: 1 }
    );
}

#[test]
fn records_are_listed_in_brackets() {
    let mut decoder = RecordDecoder::new(Reader::new(), 3, false, false);
    decoder.decode("a,\u{e9}\u{1f600},\n".as_bytes(), 1).unwrap();
    let records = decoder.flush().unwrap();
    let record = records.iter().next().unwrap();
    assert_eq!(record.to_string(), "[a,\u{e9}\u{1f600},]");

    let mut decoder = RecordDecoder::new(Reader::new(), 1, false, false);
    decoder.decode(b"single\n", 1).unwrap();
    let records = decoder.flush().unwrap();
    assert_eq!(records.iter().next().unwrap().to_string(), "[single]");
}

#[test]
fn zero_columns_refuse_all_bytes() {
    for ignore_extra_columns in [false, true] {
        let mut decoder = RecordDecoder::new(Reader::new(), 0, false, ignore_extra_columns);
        assert_eq!(
            decoder.decode(b"a\n", 3).unwrap_err(),
            CsvError::TooManyFields {
                line: 1,
                expected: 0,
                more_than: 0
            }
        );
        assert_eq!(decoder.len(), 0);
    }
}

#[test]
fn numbers_are_written_in_decimal() {
    let error = CsvError::IncorrectFields {
        line: usize::MAX,
        expected: 0,
        got: 1002,
    };
    assert_eq!(
        error.to_string(),
        format!(
            "Csv error: incorrect number of fields for line {}, expected 0 got 1002",
            usize::MAX
        )
    );
}

#[test]
fn getters_count_records_since_the_last_clear() {
    let mut decoder = RecordDecoder::with_default_reader(2, true, true);
    decoder.decode(b"a\nb,c\nd,e,f\n", 3).unwrap();
    assert_eq!(decoder.len(), 3);
    decoder.decode(b"g\nh,i,j,k,l\nm,", 5).unwrap();
    assert_eq!(decoder.len(), 5);
    assert_eq!(decoder.truncated_row_count(), 2);
    assert_eq!(decoder.extra_column_row_count(), 2);
    // refused in the middle of a record, with nothing changed
    assert_eq!(decoder.flush().unwrap_err(), CsvError::PartialRecord);
    assert_eq!(decoder.len(), 5);
    decoder.decode(b"n\n", 1).unwrap();
    assert_eq!(decoder.flush().unwrap().len(), 6);
    assert_eq!(decoder.len(), 0);
    assert_eq!(decoder.truncated_row_count(), 2);
    assert_eq!(decoder.extra_column_row_count(), 2);
    decoder.decode(b"o\np\n", 5).unwrap();
    assert_eq!(decoder.len(), 2);
    assert_eq!(decoder.truncated_row_count(), 4);
    decoder.clear();
    assert_eq!(decoder.len(), 0);
    decoder.decode(b"q\nr,s,t\n", 5).unwrap();
    assert_eq!(decoder.len(), 2);
    assert_eq!(decoder.truncated_row_count(), 1);
    assert_eq!(decoder.extra_column_row_count(), 1);
}

#[test]
fn a_refused_flush_leaves_the_decoder_as_it_was() {
    let mut decoder = RecordDecoder::with_default_reader(2, true, true);
    decoder.decode(b"a,b\nc\nd,\xff,e\n", 3).unwrap();
    let refused = CsvError::InvalidUtf8 { line: 3, field: 2 };
    assert_eq!(decoder.flush().unwrap_err(), refused);
    assert_eq!(decoder.flush().unwrap_err(), refused);
    assert_eq!(decoder.len(), 3);
    assert_eq!(decoder.truncated_row_count(), 1);
    assert_eq!(decoder.extra_column_row_count(), 1);

    // it goes on counting, and the bytes stay where they were found
    decoder.decode(b"f\ng,h,i\n", 2).unwrap();
    assert_eq!(decoder.len(), 5);
    assert_eq!(decoder.truncated_row_count(), 2);
    assert_eq!(decoder.extra_column_row_count(), 2);
    assert_eq!(decoder.flush().unwrap_err(), refused);

    // once cleared, it is as good as before
    decoder.clear();
    assert!(decoder.is_empty());
    assert_eq!(decoder.truncated_row_count(), 0);
    decoder.decode(b"j,k\nl\n", 2).unwrap();
    assert_eq!(decoder.truncated_row_count(), 1);
    assert_eq!(fields(&mut decoder, 2), [["j", "k"], ["l", ""]]);
}

#[test]
fn a_failed_call_keeps_the_rows_in_front() {
    let mut decoder = RecordDecoder::with_default_reader(2, true, false);
    assert!(decoder.decode(b"a\nb,c\nd,e,f\ng\n", 4).is_err());
    assert_eq!(decoder.len(), 2);
    assert_eq!(decoder.truncated_row_count(), 1);
}

#[test]
fn the_delimiter_can_be_chosen() {
    let mut decoder = RecordDecoder::with_delimiter(b'|', 2, false, false);
    assert_eq!(decoder.decode(b"a,b|c\n\"d|e\"|f\n", 2).unwrap(), (2, 14));
    assert_eq!(fields(&mut decoder, 2), [["a,b", "c"], ["d|e", "f"]]);

    let mut decoder = RecordDecoder::with_delimiter(b',', 2, false, false);
    assert_eq!(decoder.decode(b"a,b|c\n", 1).unwrap(), (1, 6));
    assert_eq!(fields(&mut decoder, 2), [["a", "b|c"]]);
}

#[test]
fn zero_columns_ignore_nothing() {
    for truncated_rows in [false, true] {
        for input in [&b""[..], b"a", b"a,b\n", b"\n", b"\xef\xbb\xbf"] {
            for to_read in [0, 1, 3] {
                let mut ignoring = RecordDecoder::new(Reader::new(), 0, truncated_rows, true);
                let mut other = RecordDecoder::new(Reader::new(), 0, truncated_rows, false);
                assert_eq!(
                    ignoring.decode(input, to_read),
                    other.decode(input, to_read)
                );
            }
        }
    }
}

#[test]
fn nothing_to_read_needs_no_room() {
    let mut decoder = RecordDecoder::with_default_reader(usize::MAX, false, false);
    assert_eq!(decoder.decode(b"a,b\n", 0).unwrap(), (0, 0));
}

#[test]
fn flushes_agree_however_the_input_was_cut() {
    let csv = b"a,b,c\nd,\xff,e\n";
    for split in 1..csv.len() {
        let mut whole = RecordDecoder::with_default_reader(2, false, true);
        let mut pieces = RecordDecoder::with_default_reader(2, false, true);
        assert_eq!(whole.decode(csv, 3).unwrap(), (2, csv.len()));
        let (first, bytes) = pieces.decode(&csv[..split], 3).unwrap();
        assert_eq!(bytes, split);
        let (second, bytes) = pieces.decode(&csv[split..], 3 - first).unwrap();
        assert_eq!((first + second, split + bytes), (2, csv.len()));
        assert_eq!(
            whole.flush().unwrap_err(),
            CsvError::InvalidUtf8 { line: 2, field: 2 }
        );
        assert_eq!(
            pieces.flush().unwrap_err(),
            CsvError::InvalidUtf8 { line: 2, field: 2 }
        );
    }
}
