//! What the rows of a decoder come to in the hands of its users.

use crate::csv::error::CsvError;
use crate::csv::flush;
use crate::csv::laws;
use crate::csv::model::{DecoderState, Record};
use crate::csv::outcomes;
use crate::csv::parsing;
use crate::csv::reader;
use crate::csv::records::RecordDecoder;
use crate::csv::string_records::{StringRecord, StringRecords};
use vstd::prelude::*;
use vstd::std_specs::iter::IteratorSpec;
use vstd::string::*;
use vstd::utf8;

verus! {

/// A flush gives the rows away if no record is being read and all fields are text,
/// and is refused otherwise.
///
/// The records that it hands out are as many as the rows, and have their fields, in
/// order. The decoder then holds no rows, and has counted as before. A flush that is
/// refused changes nothing, and tells why: a record is being read, or else in which
/// line and field the contents stop being text.
pub proof fn lemma_flush_hands_out_the_rows<'a>(
    before: RecordDecoder,
    after: RecordDecoder,
    r: Result<StringRecords<'a>, CsvError>,
)
    requires
        before.wf(),
        before.num_columns > 0,
        before.offsets_len <= before.offsets@.len(),
        exists|decoder: &'a mut RecordDecoder| #[trigger]
            call_ensures(RecordDecoder::flush, (decoder,), r) && *decoder == before && *final(
                decoder) == after,
    ensures
        ({
            let rows = before@.rows;
            let columns = before.num_columns as int;
            let reading = before@.current.ends.len() > 0 || before@.current.bytes.len() > 0;
            &&& rows.len() == before.num_rows
            &&& r is Ok <==> !reading && forall|row: int, column: int|
                0 <= row < rows.len() && 0 <= column < columns ==> utf8::valid_utf8(
                    #[trigger] rows[row].field(column),
                )
            &&& match r {
                Ok(records) => {
                    &&& records.wf()
                    &&& forall|n: usize| #[trigger]
                        call_ensures(StringRecords::<'a>::len, (&records,), n) ==> n == rows.len()
                    &&& forall|list: std::vec::IntoIter<StringRecord<'a>>| #[trigger]
                        call_ensures(StringRecords::<'a>::iter, (&records,), list) ==> {
                            &&& list.remaining().len() == rows.len()
                            &&& forall|row: int|
                                0 <= row < rows.len() ==> {
                                    &&& (#[trigger] list.remaining()[row]).wf()
                                    &&& list.remaining()[row].offsets@.len() == columns + 1
                                }
                            &&& forall|row: int, column: usize, text: &'a str|
                                0 <= row < rows.len() && column < columns && #[trigger]
                                call_ensures(
                                    StringRecord::<'a>::get,
                                    (&list.remaining()[row], column),
                                    text,
                                ) ==> text.spec_bytes() == rows[row].field(column as int)
                        }
                    &&& after.wf()
                    &&& after@ == (DecoderState { rows: Seq::empty(), ..before@ })
                    &&& after.layout() == before.layout()
                },
                Err(error) => {
                    &&& after == before
                    &&& if reading {
                        error == CsvError::PartialRecord
                    } else {
                        exists|row: int, column: int|
                            {
                                &&& #[trigger] flush::is_first_without_text(rows, row, column)
                                &&& error matches CsvError::InvalidUtf8 { line, field } && line
                                    == before.line_number - before.num_rows + row && field == column
                                    + 1
                            }
                    }
                },
            }
        }),
{
    let rows = before@.rows;
    let columns = before.num_columns as int;
    let none = before@.current;
    assert(none.ends.len() == before.current_field);
    assert(none.bytes.len() == before.data_len - before.record_data_start);
    assert forall|row: int| 0 <= row < rows.len() implies (#[trigger] rows[row]).ends.len()
        == columns by {
        laws::lemma_rows_have_all_columns(&before, row);
    }
    if !before.is_partial() {
        before.lemma_flush_accepts_text();
        if forall|row: int, column: int|
            0 <= row < rows.len() && 0 <= column < columns ==> utf8::valid_utf8(
                #[trigger] rows[row].field(column),
            ) {
            assert(forall|row: int|
                0 <= row < rows.len() ==> flush::is_text(#[trigger] rows[row]));
        }
        if r is Ok {
            assert forall|row: int, column: int|
                0 <= row < rows.len() && 0 <= column < columns implies utf8::valid_utf8(
                #[trigger] rows[row].field(column),
            ) by {
                assert(flush::is_text(rows[row]));
            }
        } else {
            before.lemma_reported_field();
        }
    }
}

/// Clearing drops the rows and what was counted of them, and leaves the record that
/// is being read, and the line that it is on.
pub proof fn lemma_clear_keeps_the_record_being_read(before: RecordDecoder, after: RecordDecoder)
    requires
        exists|decoder: &mut RecordDecoder| #[trigger]
            call_ensures(RecordDecoder::clear, (decoder,), ()) && *decoder == before && *final(
                decoder) == after,
    ensures
        after.wf(),
        after.layout() == before.layout(),
        after@.rows.len() == 0,
        after.num_rows == 0,
        after.truncated_row_count == 0,
        after.extra_column_row_count == 0,
        after@.current == before@.current,
        after.skipping == before.skipping,
        after.line_number == before.line_number,
        after.delimiter == before.delimiter,
{
    assert(after@.rows.len() == after.num_rows);
    assert(after@.line == after.line_number && before@.line == before.line_number);
}

/// The rows that are cleared make no difference to those that follow: a call on a
/// decoder that was cleared returns what it returns on one that was not, and adds the
/// same rows and counts.
pub proof fn lemma_decode_after_clear(
    before: RecordDecoder,
    cleared: RecordDecoder,
    input: &[u8],
    to_read: usize,
    r: Result<(usize, usize), CsvError>,
    other: Result<(usize, usize), CsvError>,
    after: RecordDecoder,
    cleared_after: RecordDecoder,
)
    requires
        exists|decoder: &mut RecordDecoder| #[trigger]
            call_ensures(RecordDecoder::clear, (decoder,), ()) && *decoder == before && *final(
                decoder) == cleared,
        exists|decoder: &mut RecordDecoder| #[trigger]
            call_ensures(RecordDecoder::decode, (decoder, input, to_read), r) && *decoder == before
                && *final(decoder) == after,
        exists|decoder: &mut RecordDecoder| #[trigger]
            call_ensures(RecordDecoder::decode, (decoder, input, to_read), other) && *decoder
                == cleared && *final(decoder) == cleared_after,
    ensures
        other == r,
        after@.rows == before@.rows + cleared_after@.rows,
        after.truncated_row_count == before.truncated_row_count
            + cleared_after.truncated_row_count,
        after.extra_column_row_count == before.extra_column_row_count
            + cleared_after.extra_column_row_count,
        after.line_number == cleared_after.line_number,
        after@.current == cleared_after@.current,
        after@.machine == cleared_after@.machine,
{
    let state = before@;
    laws::lemma_decode_behind(
        before.layout(),
        cleared@,
        state.rows,
        state.truncated,
        state.extra,
        input@,
        to_read as nat,
    );
    assert(laws::behind(state.rows, state.truncated, state.extra, cleared@) =~= state) by {
        assert(state.rows + Seq::empty() =~= state.rows);
    }
    assert(after@.line == after.line_number && cleared_after@.line == cleared_after.line_number);
}

/// What a decoder tells of itself are the rows that it holds, and its two counts.
pub proof fn lemma_getters(
    decoder: RecordDecoder,
    len: usize,
    empty: bool,
    truncated: usize,
    extra: usize,
)
    requires
        call_ensures(RecordDecoder::len, (&decoder,), len),
        call_ensures(RecordDecoder::is_empty, (&decoder,), empty),
        call_ensures(RecordDecoder::truncated_row_count, (&decoder,), truncated),
        call_ensures(RecordDecoder::extra_column_row_count, (&decoder,), extra),
    ensures
        len == decoder.num_rows,
        len == decoder@.rows.len(),
        empty <==> len == 0,
        truncated == decoder.truncated_row_count,
        extra == decoder.extra_column_row_count,
{
}

/// A field that is read from a record is the text between its two offsets, and a
/// record is written as its fields, in brackets and with commas in between.
pub proof fn lemma_record_is_listed<'a>(
    record: StringRecord<'a>,
    index: usize,
    text: &'a str,
    s: String,
)
    requires
        call_ensures(StringRecord::<'a>::get, (&record, index), text),
        call_ensures(StringRecord::<'a>::to_string, (&record,), s),
    ensures
        text.spec_bytes() == record.data.spec_bytes().subrange(
            record.offsets@[index as int] as int,
            record.offsets@[index + 1] as int,
        ),
        record.offsets@.len() > 0 ==> s@ == seq!['['] + Seq::new(
            (record.offsets@.len() - 1) as nat,
            |i: int|
                {
                    let field = utf8::decode_utf8(
                        record.data.spec_bytes().subrange(
                            record.offsets@[i] as int,
                            record.offsets@[i + 1] as int,
                        ),
                    );
                    if i == 0 {
                        field
                    } else {
                        seq![','] + field
                    }
                },
        ).flatten() + seq![']'],
{
    if record.offsets@.len() > 0 {
        lemma_listed(record, (record.offsets@.len() - 1) as nat);
    }
}

proof fn lemma_listed<'a>(record: StringRecord<'a>, n: nat)
    ensures
        record.listed(n) == Seq::new(
            n,
            |i: int|
                {
                    let field = utf8::decode_utf8(
                        record.data.spec_bytes().subrange(
                            record.offsets@[i] as int,
                            record.offsets@[i + 1] as int,
                        ),
                    );
                    if i == 0 {
                        field
                    } else {
                        seq![','] + field
                    }
                },
        ).flatten(),
    decreases n,
{
    let piece = |i: int|
        {
            let field = utf8::decode_utf8(
                record.data.spec_bytes().subrange(
                    record.offsets@[i] as int,
                    record.offsets@[i + 1] as int,
                ),
            );
            if i == 0 {
                field
            } else {
                seq![','] + field
            }
        };
    let pieces = Seq::new(n, piece);
    if n > 0 {
        let fewer = Seq::new((n - 1) as nat, piece);
        lemma_listed(record, (n - 1) as nat);
        assert(pieces.drop_last() =~= fewer);
        pieces.lemma_flatten_and_flatten_alt_are_equivalent();
        fewer.lemma_flatten_and_flatten_alt_are_equivalent();
        assert(pieces.flatten() == fewer.flatten() + piece(n - 1));
        if n == 1 {
            assert(fewer.flatten() + piece(0) =~= piece(0));
        } else {
            assert(fewer.flatten() + piece(n - 1) =~= record.listed((n - 1) as nat) + seq![',']
                + utf8::decode_utf8(record.field(n - 1)));
        }
    } else {
        assert(pieces.flatten() =~= Seq::empty());
    }
}

/// The fields in the input of a new decoder come back as texts: of as many records
/// as end in the input, or as were asked for if these are fewer, and in order. Where a
/// record has fewer fields than there are columns, the texts are empty.
pub proof fn lemma_fields_come_back<'a>(
    columns: usize,
    truncated_rows: bool,
    ignore_extra_columns: bool,
    input: &[u8],
    to_read: usize,
    new: RecordDecoder,
    rows: usize,
    bytes: usize,
    decoded: RecordDecoder,
    records: StringRecords<'a>,
    flushed: RecordDecoder,
    list: std::vec::IntoIter<StringRecord<'a>>,
)
    requires
        columns > 0,
        to_read > 0,
        new.has_room(input@.len(), to_read as nat),
        call_ensures(
            RecordDecoder::with_default_reader,
            (columns, truncated_rows, ignore_extra_columns),
            new,
        ),
        exists|decoder: &mut RecordDecoder| #[trigger]
            call_ensures(
                RecordDecoder::decode,
                (decoder, input, to_read),
                Ok::<(usize, usize), CsvError>((rows, bytes)),
            ) && *decoder == new && *final(decoder) == decoded,
        exists|decoder: &'a mut RecordDecoder| #[trigger]
            call_ensures(
                RecordDecoder::flush,
                (decoder,),
                Ok::<StringRecords<'a>, CsvError>(records),
            ) && *decoder == decoded && *final(decoder) == flushed,
        call_ensures(StringRecords::<'a>::iter, (&records,), list),
    ensures
        ({
            let parsed = parsing::records_of_call(
                false,
                reader::default_machine(),
                Record::empty(),
                input@,
            ).0;
            let n = if parsed.len() < to_read {
                parsed.len() as int
            } else {
                to_read as int
            };
            &&& rows == n
            &&& list.remaining().len() == n
            &&& forall|row: int, column: usize, text: &'a str|
                0 <= row < n && column < columns && #[trigger] call_ensures(
                    StringRecord::<'a>::get,
                    (&list.remaining()[row], column),
                    text,
                ) ==> text.spec_bytes() == if column < parsed[row].ends.len() {
                    parsed[row].field(column as int)
                } else {
                    Seq::empty()
                }
            &&& forall|row: int|
                0 <= row < n ==> {
                    &&& (#[trigger] parsed[row]).ends.len() < columns ==> truncated_rows
                    &&& parsed[row].ends.len() > columns ==> ignore_extra_columns
                }
        }),
{
    let parsed = parsing::records_of_call(
        false,
        reader::default_machine(),
        Record::empty(),
        input@,
    ).0;
    outcomes::lemma_decode_makes_rows_of_records(
        new,
        decoded,
        Record::empty(),
        input,
        to_read,
        Ok((rows, bytes)),
    );
    assert(new@.rows.len() == new.num_rows);
    lemma_flush_hands_out_the_rows(decoded, flushed, Ok(records));
    assert forall|row: int, column: usize, text: &'a str|
        0 <= row < rows && column < columns && #[trigger] call_ensures(
            StringRecord::<'a>::get,
            (&list.remaining()[row], column),
            text,
        ) implies text.spec_bytes() == if column < parsed[row].ends.len() {
        parsed[row].field(column as int)
    } else {
        Seq::empty()
    } by {
        let record = parsed[row];
        let decoded_row = decoded@.rows[new.num_rows + row];
        assert(decoded@.rows[row] == decoded_row);
        assert(decoded@.rows[new.num_rows + row].field(column as int) == if column
            < record.ends.len() {
            record.field(column as int)
        } else {
            Seq::empty()
        });
    }
}

/// Where the input of a decoder is cut does not matter: two calls read the rows and
/// the bytes that one call on all of the input reads, and leave the same rows.
pub proof fn lemma_pieces_decode_as_the_whole(
    start: RecordDecoder,
    a: &[u8],
    b: &[u8],
    whole: &[u8],
    to_read: usize,
    rows: usize,
    bytes: usize,
    more_rows: usize,
    more_bytes: usize,
    all_rows: usize,
    all_bytes: usize,
    first: RecordDecoder,
    second: RecordDecoder,
    once: RecordDecoder,
)
    requires
        start.wf(),
        start@.current == Record::empty(),
        whole@ == a@ + b@,
        b@.len() > 0,
        reader::bom_len(start@.started, a@) == reader::bom_len(start@.started, whole@) < a@.len(),
        exists|decoder: &mut RecordDecoder| #[trigger]
            call_ensures(
                RecordDecoder::decode,
                (decoder, a, to_read),
                Ok::<(usize, usize), CsvError>((rows, bytes)),
            ) && *decoder == start && *final(decoder) == first,
        rows < to_read,
        exists|decoder: &mut RecordDecoder| #[trigger]
            call_ensures(
                RecordDecoder::decode,
                (decoder, b, (to_read - rows) as usize),
                Ok::<(usize, usize), CsvError>((more_rows, more_bytes)),
            ) && *decoder == first && *final(decoder) == second,
        exists|decoder: &mut RecordDecoder| #[trigger]
            call_ensures(
                RecordDecoder::decode,
                (decoder, whole, to_read),
                Ok::<(usize, usize), CsvError>((all_rows, all_bytes)),
            ) && *decoder == start && *final(decoder) == once,
    ensures
        bytes == a@.len(),
        all_rows == rows + more_rows,
        all_bytes == bytes + more_bytes,
        once@.rows == second@.rows,
{
    laws::lemma_flush_after_pieces(
        &start,
        &first,
        &second,
        &once,
        a@,
        b@,
        to_read as nat,
    );
}

/// In the middle of a record a flush is refused, and nothing changes.
pub proof fn lemma_flush_in_a_record<'a>(
    before: RecordDecoder,
    after: RecordDecoder,
    r: Result<StringRecords<'a>, CsvError>,
)
    requires
        before.current_field > 0 || before.data_len != before.record_data_start,
        exists|decoder: &'a mut RecordDecoder| #[trigger]
            call_ensures(RecordDecoder::flush, (decoder,), r) && *decoder == before && *final(
                decoder) == after,
    ensures
        r is Err && r->Err_0 == CsvError::PartialRecord,
        after == before,
{
}

/// A record that was refused stays where it is: the decoder cannot be flushed then.
pub proof fn lemma_flush_after_a_refused_record<'a>(
    before: RecordDecoder,
    input: &[u8],
    to_read: usize,
    error: CsvError,
    failed: RecordDecoder,
    r: Result<StringRecords<'a>, CsvError>,
    after: RecordDecoder,
)
    requires
        before.wf(),
        !before.skipping,
        before.num_columns > 0,
        before.has_room(input@.len(), to_read as nat),
        exists|decoder: &mut RecordDecoder| #[trigger]
            call_ensures(
                RecordDecoder::decode,
                (decoder, input, to_read),
                Err::<(usize, usize), CsvError>(error),
            ) && *decoder == before && *final(decoder) == failed,
        exists|decoder: &'a mut RecordDecoder| #[trigger]
            call_ensures(RecordDecoder::flush, (decoder,), r) && *decoder == failed && *final(
                decoder) == after,
    ensures
        to_read > 0,
        r is Err && r->Err_0 == CsvError::PartialRecord,
        after == failed,
{
    if to_read == 0 {
        outcomes::lemma_decode_of_no_rows(before, failed, input, Err(error));
    } else {
        let current = before@.current;
        let columns = before.num_columns as int;
        outcomes::lemma_decode_makes_rows_of_records(
            before,
            failed,
            current,
            input,
            to_read,
            Err(error),
        );
        let n = failed.num_rows - before.num_rows;
        let body = input@.skip(reader::bom_len(before@.started, input@) as int);
        outcomes::lemma_records_have_fields(before@.machine, current, body, 0);
        assert((to_read - n) * columns > 0) by (nonlinear_arith)
            requires
                n < to_read,
                columns > 0,
        ;
        assert(failed@.current.ends.len() == failed.current_field);
        lemma_flush_in_a_record(failed, after, r);
    }
}

} // verus!
