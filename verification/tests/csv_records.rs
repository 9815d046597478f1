//! Decoding of CSV records.

use arrow_io::csv::records::RecordDecoder;
use csv_core::Reader;
use std::io::{BufRead, BufReader, Cursor};

#[test]
fn test_basic() {
    let csv = [
        "foo,bar,baz",
        "a,b,c",
        "12,3,5",
        "\"asda\"\"asas\",\"sdffsnsd\", as",
    ]
    .join("\n");

    let mut expected = vec![
        vec!["foo", "bar", "baz"],
        vec!["a", "b", "c"],
        vec!["12", "3", "5"],
        vec!["asda\"asas", "sdffsnsd", " as"],
    ]
    .into_iter();

    let mut reader = BufReader::with_capacity(3, Cursor::new(csv.as_bytes()));
    let mut decoder = RecordDecoder::new(Reader::new(), 3, false, false);

    loop {
        let to_read = 3;
        let mut read = 0;
        loop {
            let buf = reader.fill_buf().unwrap();
            let (records, bytes) = decoder.decode(buf, to_read - read).unwrap();

            reader.consume(bytes);
            read += records;

            if read == to_read || bytes == 0 {
                break;
            }
        }
        if read == 0 {
            break;
        }

        let b = decoder.flush().unwrap();
        b.iter().zip(&mut expected).for_each(|(record, expected)| {
            let actual = (0..3)
                .map(|field_idx| record.get(field_idx))
                .collect::<Vec<_>>();
            assert_eq!(actual, expected)
        });
    }
    assert!(expected.next().is_none());
}

#[test]
fn test_invalid_fields() {
    let csv = "a,b\nb,c\na\n";
    let mut decoder = RecordDecoder::new(Reader::new(), 2, false, false);
    let err = decoder.decode(csv.as_bytes(), 4).unwrap_err().to_string();

    let expected = "Csv error: incorrect number of fields for line 3, expected 2 got 1";

    assert_eq!(err, expected);

    // Test with initial skip
    let mut decoder = RecordDecoder::new(Reader::new(), 2, false, false);
    let (skipped, bytes) = decoder.decode(csv.as_bytes(), 1).unwrap();
    assert_eq!(skipped, 1);
    decoder.clear();

    let remaining = &csv.as_bytes()[bytes..];
    let err = decoder.decode(remaining, 3).unwrap_err().to_string();
    assert_eq!(err, expected);
}

#[test]
fn test_skip_insufficient_rows() {
    let csv = "a\nv\n";
    let mut decoder = RecordDecoder::new(Reader::new(), 1, false, false);
    let (read, bytes) = decoder.decode(csv.as_bytes(), 3).unwrap();
    assert_eq!(read, 2);
    assert_eq!(bytes, csv.len());
}

#[test]
fn test_truncated_rows() {
    let csv = "a,b\nv\n,1\n,2\n,3\n";
    let mut decoder = RecordDecoder::new(Reader::new(), 2, true, false);
    let (read, bytes) = decoder.decode(csv.as_bytes(), 5).unwrap();
    assert_eq!(read, 5);
    assert_eq!(bytes, csv.len());
    // Only "v" is short, the rows starting with a delimiter have both fields
    assert_eq!(decoder.truncated_row_count(), 1);
}

#[test]
fn test_truncated_row_count_not_reset_by_flush() {
    let csv = "a\nb,2\nc\n";
    let mut decoder = RecordDecoder::new(Reader::new(), 2, true, false);

    let (read, _) = decoder.decode(csv.as_bytes(), 2).unwrap();
    assert_eq!(read, 2);
    assert_eq!(decoder.truncated_row_count(), 1);
    decoder.flush().unwrap();
    assert_eq!(decoder.truncated_row_count(), 1);

    let (read, _) = decoder.decode(&csv.as_bytes()[6..], 1).unwrap();
    assert_eq!(read, 1);
    assert_eq!(decoder.truncated_row_count(), 2);
    decoder.flush().unwrap();
    assert_eq!(decoder.truncated_row_count(), 2);
}

#[test]
fn test_truncated_row_count_reset_by_clear() {
    let csv = "a\nb,2\n";
    let mut decoder = RecordDecoder::new(Reader::new(), 2, true, false);

    let (read, _) = decoder.decode(csv.as_bytes(), 2).unwrap();
    assert_eq!(read, 2);
    assert_eq!(decoder.truncated_row_count(), 1);

    // The rows are discarded, so the padding done to them is discarded too
    decoder.clear();
    assert_eq!(decoder.truncated_row_count(), 0);
}

/// Stages the decoder's state directly so that rebasing the second row's end
/// offset overflows `usize`
#[test]
fn test_flush_offset_overflow_returns_csv_error() {
    let mut decoder = RecordDecoder::new(Reader::new(), 1, false, false);
    decoder.offsets = vec![0, usize::MAX, 1];
    decoder.offsets_len = 3;
    decoder.num_rows = 2;
    let err = decoder.flush().unwrap_err();
    assert_eq!(
        err.to_string(),
        "Csv error: CSV record offsets overflowed usize while flushing"
    );
}

/// Flushing with bytes of the next record's first field already consumed would
/// silently drop those bytes while `csv_core` still counts them, corrupting the
/// field end offsets of the record they belong to
#[test]
fn test_flush_partial_first_field_errors() {
    let mut decoder = RecordDecoder::new(Reader::new(), 2, false, false);
    // "1" is a partial first field of the second record: no field end has been
    // written yet, so `current_field` is still 0
    let (read, bytes) = decoder.decode(b"a,b\n1", 3).unwrap();
    assert_eq!((read, bytes), (1, 5));

    let err = decoder.flush().unwrap_err().to_string();
    assert_eq!(err, "Csv error: Cannot flush part way through record");

    // Completing the record makes both it and the buffered row flushable
    let (read, bytes) = decoder.decode(b",2\n", 2).unwrap();
    assert_eq!((read, bytes), (1, 3));
    let records = decoder.flush().unwrap();
    let actual = records
        .iter()
        .map(|record| vec![record.get(0), record.get(1)])
        .collect::<Vec<_>>();
    assert_eq!(actual, vec![vec!["a", "b"], vec!["1", "2"]]);
}

#[test]
fn test_ignore_extra_columns() {
    let csv = "a,\"b,c\",extra\n1,2,x,y,z\n3,4\n";
    let mut decoder = RecordDecoder::new(Reader::new(), 2, false, true);
    let (read, bytes) = decoder.decode(csv.as_bytes(), 3).unwrap();
    assert_eq!((read, bytes), (3, csv.len()));

    let records = decoder.flush().unwrap();
    let actual = records
        .iter()
        .map(|record| vec![record.get(0), record.get(1)])
        .collect::<Vec<_>>();
    assert_eq!(
        actual,
        vec![vec!["a", "b,c"], vec!["1", "2"], vec!["3", "4"]]
    );
}

#[test]
fn test_ignore_extra_columns_byte_by_byte() {
    let csv = b"a,b,c,d,e,f\n1,2,3\n";
    let mut decoder = RecordDecoder::new(Reader::new(), 2, false, true);
    // Fill the ends buffer while input remains, entering skip mode part way
    // through the first oversized record
    let (records, bytes) = decoder.decode(&csv[..9], 2).unwrap();
    assert_eq!((records, bytes), (0, 9));
    assert!(decoder.skipping);

    let mut offset = bytes;
    let mut read = 0;

    while offset < csv.len() {
        let (records, bytes) = decoder.decode(&csv[offset..offset + 1], 2 - read).unwrap();
        assert_eq!(bytes, 1);
        offset += bytes;
        read += records;
    }
    let (records, bytes) = decoder.decode(&[], 2 - read).unwrap();
    assert_eq!(bytes, 0);
    read += records;
    assert_eq!(read, 2);

    let records = decoder.flush().unwrap();
    let actual = records
        .iter()
        .map(|record| vec![record.get(0), record.get(1)])
        .collect::<Vec<_>>();
    assert_eq!(actual, vec![vec!["a", "b"], vec!["1", "2"]]);
}

#[test]
fn test_ignore_extra_columns_output_ends_full() {
    let extras = (0..200)
        .map(|i| i.to_string())
        .collect::<Vec<_>>()
        .join(",");
    let csv = format!("a,b,{extras}\nc,d\n");
    let mut decoder = RecordDecoder::new(Reader::new(), 2, false, true);
    let (read, bytes) = decoder.decode(csv.as_bytes(), 4).unwrap();
    assert_eq!((read, bytes), (2, csv.len()));

    let records = decoder.flush().unwrap();
    let actual = records
        .iter()
        .map(|record| vec![record.get(0), record.get(1)])
        .collect::<Vec<_>>();
    assert_eq!(actual, vec![vec!["a", "b"], vec!["c", "d"]]);
}

#[test]
fn test_ignore_extra_columns_output_ends_full_without_trailing_newline() {
    let extras = vec!["extra"; 100].join(",");
    let csv = format!("a,b,{extras}");
    let mut decoder = RecordDecoder::new(Reader::new(), 2, false, true);
    let (read, bytes) = decoder.decode(csv.as_bytes(), 1).unwrap();
    assert_eq!((read, bytes), (0, csv.len()));
    let (read, bytes) = decoder.decode(&[], 1).unwrap();
    assert_eq!((read, bytes), (1, 0));

    let records = decoder.flush().unwrap();
    let record = records.iter().next().unwrap();
    assert_eq!((record.get(0), record.get(1)), ("a", "b"));
}

#[test]
fn test_ignore_extra_columns_across_batches() {
    let csv = b"first,row,ignored\nsecond,value,also_ignored\n";
    let mut decoder = RecordDecoder::new(Reader::new(), 2, false, true);

    let (read, bytes) = decoder.decode(csv, 1).unwrap();
    assert_eq!(read, 1);
    let records = decoder.flush().unwrap();
    let first = records.iter().next().unwrap();
    assert_eq!((first.get(0), first.get(1)), ("first", "row"));

    let (read, remaining_bytes) = decoder.decode(&csv[bytes..], 1).unwrap();
    assert_eq!((read, remaining_bytes), (1, csv.len() - bytes));
    let records = decoder.flush().unwrap();
    let second = records.iter().next().unwrap();
    assert_eq!((second.get(0), second.get(1)), ("second", "value"));
}

#[test]
fn test_ignore_extra_columns_composes_with_truncated_rows() {
    let csv = "a\nb,c,extra\nd,e\n";
    let mut decoder = RecordDecoder::new(Reader::new(), 2, true, true);
    let (read, bytes) = decoder.decode(csv.as_bytes(), 3).unwrap();
    assert_eq!((read, bytes), (3, csv.len()));
    assert_eq!(decoder.truncated_row_count(), 1);

    let records = decoder.flush().unwrap();
    let actual = records
        .iter()
        .map(|record| vec![record.get(0), record.get(1)])
        .collect::<Vec<_>>();
    assert_eq!(actual, vec![vec!["a", ""], vec!["b", "c"], vec!["d", "e"]]);
}

#[test]
fn test_extra_columns_errors_when_disabled() {
    let mut decoder = RecordDecoder::new(Reader::new(), 2, false, false);
    let err = decoder.decode(b"a,b,c\n", 2).unwrap_err();
    assert_eq!(
        err.to_string(),
        "Csv error: incorrect number of fields for line 1, expected 2 got 3"
    );

    let extras = vec!["extra"; 20].join(",");
    let csv = format!("a,b,{extras}\n");
    let mut decoder = RecordDecoder::new(Reader::new(), 2, false, false);
    let err = decoder.decode(csv.as_bytes(), 2).unwrap_err();
    assert_eq!(
        err.to_string(),
        "Csv error: incorrect number of fields for line 1, expected 2 got more than 4"
    );
}

#[test]
fn test_clear_preserves_partial_oversized_record() {
    let csv = b"a,b,c,d,e\n";
    let mut decoder = RecordDecoder::new(Reader::new(), 2, false, true);

    for byte in csv {
        let (_, read) = decoder.decode(std::slice::from_ref(byte), 1).unwrap();
        assert_eq!(read, 1);
        decoder.clear();
    }

    assert!(!decoder.skipping);
    assert_eq!(decoder.current_field, 0);
}

/// A zero column schema cannot represent any record, so `ignore_extra_columns`
/// must not turn the error into an unflushable stream of empty rows
#[test]
fn test_ignore_extra_columns_zero_columns_still_errors() {
    let mut decoder = RecordDecoder::new(Reader::new(), 0, false, true);
    let err = decoder.decode(b"a,b\n", 1).unwrap_err();
    assert_eq!(
        err.to_string(),
        "Csv error: incorrect number of fields for line 1, expected 0 got more than 0"
    );
}

#[test]
fn test_extra_column_row_count() {
    let csv = "a,b\nc,d,e\nf,g\nh,i,j,k\n";
    let mut decoder = RecordDecoder::new(Reader::new(), 2, false, true);
    let (read, bytes) = decoder.decode(csv.as_bytes(), 4).unwrap();
    assert_eq!((read, bytes), (4, csv.len()));
    // Only the second and fourth rows have extra fields
    assert_eq!(decoder.extra_column_row_count(), 2);
}

#[test]
fn test_extra_column_row_count_counts_oversized_record_once() {
    // Long enough to exhaust the offsets buffer and take the `skipping` path
    let extras = (0..200)
        .map(|i| i.to_string())
        .collect::<Vec<_>>()
        .join(",");
    let csv = format!("a,b,{extras}\nc,d\n");
    let mut decoder = RecordDecoder::new(Reader::new(), 2, false, true);
    let (read, bytes) = decoder.decode(csv.as_bytes(), 4).unwrap();
    assert_eq!((read, bytes), (2, csv.len()));
    assert_eq!(decoder.extra_column_row_count(), 1);
}

#[test]
fn test_extra_column_row_count_not_reset_by_flush() {
    let csv = "a,b,c\nd,e\n";
    let mut decoder = RecordDecoder::new(Reader::new(), 2, false, true);

    let (read, _) = decoder.decode(csv.as_bytes(), 2).unwrap();
    assert_eq!(read, 2);
    assert_eq!(decoder.extra_column_row_count(), 1);
    decoder.flush().unwrap();
    assert_eq!(decoder.extra_column_row_count(), 1);

    let (read, _) = decoder.decode(b"f,g,h\n", 1).unwrap();
    assert_eq!(read, 1);
    assert_eq!(decoder.extra_column_row_count(), 2);
    decoder.flush().unwrap();
    assert_eq!(decoder.extra_column_row_count(), 2);
}

#[test]
fn test_extra_column_row_count_reset_by_clear() {
    let csv = "a,b,c\nd,e\n";
    let mut decoder = RecordDecoder::new(Reader::new(), 2, false, true);

    let (read, _) = decoder.decode(csv.as_bytes(), 2).unwrap();
    assert_eq!(read, 2);
    assert_eq!(decoder.extra_column_row_count(), 1);

    // The rows are discarded, so the fields discarded from them are too
    decoder.clear();
    assert_eq!(decoder.extra_column_row_count(), 0);
}

#[test]
fn test_extra_column_row_count_zero_when_disabled() {
    let csv = "a,b\nc,d\n";
    let mut decoder = RecordDecoder::new(Reader::new(), 2, false, false);
    let (read, _) = decoder.decode(csv.as_bytes(), 2).unwrap();
    assert_eq!(read, 2);
    assert_eq!(decoder.extra_column_row_count(), 0);
}
