//! The records in the input of a decoder, and the rows that it makes of them.

use crate::csv::flush;
use crate::csv::laws;
use crate::csv::model;
use crate::csv::model::{DecoderState, Layout, Outcome, Record};
use crate::csv::reader;
use crate::csv::reader::Step;
use crate::csv::records::RecordDecoder;
use vstd::prelude::*;
use vstd::utf8;

verus! {

/// A record goes on by one byte.
pub open spec fn extended(record: Record, step: Step, byte: u8) -> Record {
    let bytes = if step.emits {
        record.bytes.push(byte)
    } else {
        record.bytes
    };
    Record {
        bytes,
        ends: if step.boundary is Nothing {
            record.ends
        } else {
            record.ends.push(bytes.len())
        },
    }
}

/// The records that end in `input` from `pos` on, with all their fields, and the
/// one that is still open then. A reader in state `machine` tells them apart;
/// `open` is what it has of the first one already.
pub open spec fn records_in(machine: int, open: Record, input: Seq<u8>, pos: int) -> (
    Seq<Record>,
    Record,
)
    decreases input.len() - pos,
{
    if pos >= input.len() {
        (Seq::empty(), open)
    } else {
        let step = reader::csv_step(machine, input[pos]);
        let longer = extended(open, step, input[pos]);
        if step.boundary is Record {
            let (rest, last) = records_in(step.next, Record::empty(), input, pos + 1);
            (seq![longer] + rest, last)
        } else {
            records_in(step.next, longer, input, pos + 1)
        }
    }
}

/// The records that end in the input of one call, and the one that is still open
/// then. Empty input stands for the end of all data, where a record that is open
/// ends.
pub open spec fn records_of_call(started: bool, machine: int, open: Record, input: Seq<u8>) -> (
    Seq<Record>,
    Record,
) {
    let body = input.skip(reader::bom_len(started, input) as int);
    if body.len() > 0 {
        records_in(machine, open, body, 0)
    } else if reader::csv_finish(machine).record {
        (seq![Record { ends: open.ends.push(open.bytes.len()), ..open }], Record::empty())
    } else {
        (Seq::empty(), open)
    }
}

/// The first `n` records, or all if there are fewer.
pub open spec fn first(records: Seq<Record>, n: nat) -> Seq<Record> {
    if n <= records.len() {
        records.take(n as int)
    } else {
        records
    }
}

/// The record has too few fields.
pub open spec fn is_short(layout: Layout, record: Record) -> bool {
    record.ends.len() < layout.num_columns
}

/// The record has too many fields.
pub open spec fn is_long(layout: Layout, record: Record) -> bool {
    record.ends.len() > layout.num_columns
}

/// The record makes a row.
pub open spec fn is_accepted(layout: Layout, record: Record) -> bool {
    &&& is_short(layout, record) ==> layout.truncated_rows
    &&& is_long(layout, record) ==> layout.ignore_extra_columns
}

/// The row that a record makes.
pub open spec fn row_of(layout: Layout, record: Record) -> Record {
    if is_short(layout, record) {
        record.pad(layout.num_columns)
    } else if is_long(layout, record) {
        record.cut(layout.num_columns)
    } else {
        record
    }
}

/// The rows that records make.
pub open spec fn rows_of(layout: Layout, records: Seq<Record>) -> Seq<Record> {
    Seq::new(records.len(), |i: int| row_of(layout, records[i]))
}

/// The records in front of the first one that makes no row.
pub open spec fn accepted(layout: Layout, records: Seq<Record>) -> Seq<Record>
    decreases records.len(),
{
    if records.len() == 0 || !is_accepted(layout, records[0]) {
        Seq::empty()
    } else {
        seq![records[0]] + accepted(layout, records.drop_first())
    }
}

/// The number of records with too few fields.
pub open spec fn count_short(layout: Layout, records: Seq<Record>) -> nat
    decreases records.len(),
{
    if records.len() == 0 {
        0
    } else {
        count_short(layout, records.drop_first()) + if is_short(layout, records[0]) {
            1nat
        } else {
            0
        }
    }
}

/// The number of records with too many fields.
pub open spec fn count_long(layout: Layout, records: Seq<Record>) -> nat
    decreases records.len(),
{
    if records.len() == 0 {
        0
    } else {
        count_long(layout, records.drop_first()) + if is_long(layout, records[0]) {
            1nat
        } else {
            0
        }
    }
}

/// `open` is, with all its fields, the record that a decoder is reading.
pub open spec fn tracks(layout: Layout, state: DecoderState, open: Record) -> bool {
    &&& open.valid()
    &&& if state.skipping {
        &&& layout.ignore_extra_columns
        &&& open.ends.len() >= layout.num_columns
        &&& state.current == open.cut(layout.num_columns)
    } else {
        state.current == open
    }
}

/// `after` has come from `before` by making rows of `records`.
pub open spec fn has_added(
    layout: Layout,
    before: DecoderState,
    after: DecoderState,
    records: Seq<Record>,
) -> bool {
    &&& after.rows == before.rows + rows_of(layout, records)
    &&& after.truncated == before.truncated + count_short(layout, records)
    &&& laws::settled(after) == laws::settled(before) + count_long(layout, records)
    &&& after.line == before.line + records.len()
}

/// What a run has done: it has made rows of `records`, up to the first that makes
/// none.
spec fn explains(
    layout: Layout,
    before: DecoderState,
    records: Seq<Record>,
    open: Record,
    want: nat,
    read: nat,
    outcome: Outcome,
) -> bool {
    let all = first(records, want);
    match outcome {
        Outcome::Done { state, read: total, .. } => {
            &&& total == read + all.len()
            &&& accepted(layout, all) == all
            &&& has_added(layout, before, state, all)
            &&& tracks(
                layout,
                state,
                if all.len() < want {
                    open
                } else {
                    Record::empty()
                },
            )
        },
        Outcome::Failed { state, .. } => {
            &&& has_added(layout, before, state, accepted(layout, all))
            &&& tracks(layout, state, state.current)
        },
    }
}

/// One record more in front.
proof fn lemma_one_more(
    layout: Layout,
    before: DecoderState,
    ended: DecoderState,
    record: Record,
    rest: Seq<Record>,
    open: Record,
    want: nat,
    read: nat,
    outcome: Outcome,
)
    requires
        want > 0,
        is_accepted(layout, record),
        has_added(layout, before, ended, seq![record]),
        explains(layout, ended, rest, open, (want - 1) as nat, read + 1, outcome),
    ensures
        explains(layout, before, seq![record] + rest, open, want, read, outcome),
{
    let records = seq![record] + rest;
    let all = first(records, want);
    let fewer = first(rest, (want - 1) as nat);
    assert(all =~= seq![record] + fewer);
    assert(all.drop_first() =~= fewer);
    let good = accepted(layout, all);
    let good_rest = accepted(layout, fewer);
    assert(good =~= seq![record] + good_rest);
    if let Outcome::Done { state, .. } = outcome {
        lemma_added_more(layout, before, ended, state, record, fewer);
    }
    if let Outcome::Failed { state, .. } = outcome {
        lemma_added_more(layout, before, ended, state, record, good_rest);
    }
}

proof fn lemma_added_more(
    layout: Layout,
    before: DecoderState,
    ended: DecoderState,
    after: DecoderState,
    record: Record,
    rest: Seq<Record>,
)
    requires
        has_added(layout, before, ended, seq![record]),
        has_added(layout, ended, after, rest),
    ensures
        has_added(layout, before, after, seq![record] + rest),
{
    let records = seq![record] + rest;
    assert(records.drop_first() =~= rest);
    assert(seq![record].drop_first() =~= Seq::empty());
    assert(rows_of(layout, records) =~= rows_of(layout, seq![record]) + rows_of(layout, rest));
    assert(before.rows + rows_of(layout, records) =~= (before.rows + rows_of(
        layout,
        seq![record],
    )) + rows_of(layout, rest));
    assert(count_short(layout, Seq::empty()) == 0);
    assert(count_long(layout, Seq::empty()) == 0);
}

/// A record that ends makes its row, or none.
pub(crate) proof fn lemma_end_record(
    layout: Layout,
    before: DecoderState,
    state: DecoderState,
    record: Record,
)
    requires
        tracks(layout, state, record),
        state.skipping ==> is_long(layout, record),
        state.rows == before.rows,
        state.truncated == before.truncated,
        laws::settled(state) == laws::settled(before),
        state.line == before.line,
    ensures
        match model::end_record(layout, state) {
            Ok(ended) => {
                &&& is_accepted(layout, record)
                &&& has_added(layout, before, ended, seq![record])
                &&& ended.machine == state.machine
                &&& tracks(layout, ended, Record::empty())
                &&& !ended.skipping
            },
            Err(_) => !is_accepted(layout, record) && !state.skipping,
        },
{
    let one = seq![record];
    assert(one.drop_first() =~= Seq::empty());
    assert(count_short(layout, one.drop_first()) == 0);
    assert(count_long(layout, one.drop_first()) == 0);
    if let Ok(ended) = model::end_record(layout, state) {
        assert(ended.rows =~= before.rows + rows_of(layout, one));
    }
}

/// A record that ends has one field more than had ended before.
pub(crate) proof fn lemma_first_record(machine: int, open: Record, input: Seq<u8>, pos: int)
    ensures
        ({
            let records = records_in(machine, open, input, pos).0;
            records.len() > 0 ==> records[0].ends.len() > open.ends.len()
        }),
    decreases input.len() - pos,
{
    if pos < input.len() {
        let step = reader::csv_step(machine, input[pos]);
        let longer = extended(open, step, input[pos]);
        if !(step.boundary is Record) {
            lemma_first_record(step.next, longer, input, pos + 1);
        }
    }
}

/// A byte that goes into the record being read goes into the record with all its
/// fields as well.
pub(crate) proof fn lemma_take_byte(layout: Layout, state: DecoderState, open: Record, byte: u8)
    requires
        tracks(layout, state, open),
        layout.ignore_extra_columns ==> layout.num_columns > 0,
    ensures
        ({
            let step = reader::csv_step(state.machine, byte);
            tracks(layout, model::take_byte(state, byte), extended(open, step, byte))
        }),
{
    let step = reader::csv_step(state.machine, byte);
    let longer = extended(open, step, byte);
    let whole = DecoderState { current: open, skipping: false, ..state };
    laws::lemma_byte_valid(whole, byte);
    assert(model::take_byte(whole, byte).current == longer);
    if state.skipping {
        assert(longer.ends.take(open.ends.len() as int) =~= open.ends);
        assert(longer.bytes.take(open.bytes.len() as int) =~= open.bytes);
        laws::lemma_cut_longer(open, longer, layout.num_columns);
    }
}

/// The records that a run goes over are the ones that it makes rows of.
proof fn lemma_run_records(
    layout: Layout,
    state: DecoderState,
    open: Record,
    slots: int,
    input: Seq<u8>,
    want: nat,
    read: nat,
    pos: int,
)
    requires
        tracks(layout, state, open),
        layout.ignore_extra_columns ==> layout.num_columns > 0,
        want * layout.num_columns <= slots,
        want == 0 ==> open == Record::empty(),
    ensures
        ({
            let (records, last) = records_in(state.machine, open, input, pos);
            explains(
                layout,
                state,
                records,
                last,
                want,
                read,
                model::run(layout, state, slots, input, want, read, pos),
            )
        }),
    decreases input.len() - pos,
{
    let n = layout.num_columns;
    let (records, last) = records_in(state.machine, open, input, pos);
    let all = first(records, want);
    let none = Seq::<Record>::empty();
    assert(state.rows + rows_of(layout, none) =~= state.rows);
    assert(count_short(layout, none) == 0);
    assert(count_long(layout, none) == 0);
    if pos >= input.len() || want == 0 {
        assert(all =~= none);
    } else {
        assert(n <= want * n && (want - 1) * n == want * n - n) by (nonlinear_arith)
            requires
                want > 0,
        ;
        let byte = input[pos];
        let step = reader::csv_step(state.machine, byte);
        let longer = extended(open, step, byte);
        if model::is_full(state, slots) && !layout.ignore_extra_columns {
            lemma_first_record(state.machine, open, input, pos);
            assert(accepted(layout, all) =~= none);
        } else {
            let ready = if model::is_full(state, slots) {
                model::start_skipping(layout, state)
            } else {
                state
            };
            lemma_take_byte(layout, ready, open, byte);
            let next = model::take_byte(ready, byte);
            if step.boundary is Record {
                lemma_end_record(layout, state, next, longer);
                let (rest, rest_last) = records_in(step.next, Record::empty(), input, pos + 1);
                match model::end_record(layout, next) {
                    Ok(ended) => {
                        let fewer = (want - 1) as nat;
                        let left = slots - n;
                        lemma_run_records(
                            layout,
                            ended,
                            Record::empty(),
                            left,
                            input,
                            fewer,
                            read + 1,
                            pos + 1,
                        );
                        lemma_one_more(
                            layout,
                            state,
                            ended,
                            longer,
                            rest,
                            rest_last,
                            want,
                            read,
                            model::run(layout, ended, left, input, fewer, read + 1, pos + 1),
                        );
                    },
                    Err(error) => {
                        assert(all[0] == longer);
                        assert(accepted(layout, all) =~= none);
                    },
                }
            } else {
                lemma_run_records(layout, next, longer, slots, input, want, read, pos + 1);
                lemma_same_start(
                    layout,
                    state,
                    next,
                    records,
                    last,
                    want,
                    read,
                    model::run(layout, next, slots, input, want, read, pos + 1),
                );
            }
        }
    }
}

/// What has been added since a state with the same rows and counts.
proof fn lemma_same_start(
    layout: Layout,
    before: DecoderState,
    next: DecoderState,
    records: Seq<Record>,
    open: Record,
    want: nat,
    read: nat,
    outcome: Outcome,
)
    requires
        before.rows == next.rows,
        before.truncated == next.truncated,
        laws::settled(before) == laws::settled(next),
        before.line == next.line,
        explains(layout, next, records, open, want, read, outcome),
    ensures
        explains(layout, before, records, open, want, read, outcome),
{
}

/// The record that a decoder is reading after a call that has succeeded, with all
/// its fields.
pub open spec fn open_after(
    started: bool,
    machine: int,
    open: Record,
    input: Seq<u8>,
    to_read: nat,
) -> Record {
    let (records, last) = records_of_call(started, machine, open, input);
    if to_read == 0 {
        open
    } else if records.len() < to_read {
        last
    } else {
        Record::empty()
    }
}

/// A call makes rows of the first `to_read` records that end in its input, or of
/// all if there are fewer: the rows hold the fields of the records, filled up or
/// cut where the layout allows it. Just those that were filled up and those that
/// were cut are counted as such.
///
/// A call that fails has done so with the records in front of the first one that
/// makes no row.
pub proof fn lemma_decode_records(
    layout: Layout,
    state: DecoderState,
    open: Record,
    input: Seq<u8>,
    to_read: nat,
)
    requires
        tracks(layout, state, open),
        layout.ignore_extra_columns ==> layout.num_columns > 0,
    ensures
        ({
            let records = records_of_call(state.started, state.machine, open, input).0;
            let all = first(records, to_read);
            match model::decode(layout, state, input, to_read) {
                Outcome::Done { state: after, read, .. } => {
                    &&& read == all.len()
                    &&& accepted(layout, all) == all
                    &&& has_added(layout, state, after, all)
                    &&& tracks(
                        layout,
                        after,
                        open_after(state.started, state.machine, open, input, to_read),
                    )
                },
                Outcome::Failed { state: after, .. } => {
                    &&& has_added(layout, state, after, accepted(layout, all))
                    &&& tracks(layout, after, after.current)
                },
            }
        }),
{
    let n = layout.num_columns;
    let body = input.skip(reader::bom_len(state.started, input) as int);
    let slots = state.current.ends.len() + to_read * n;
    let begun = model::begun(state);
    let none = Seq::<Record>::empty();
    let records = records_of_call(state.started, state.machine, open, input).0;
    let all = first(records, to_read);
    assert(state.rows + rows_of(layout, none) =~= state.rows);
    assert(count_short(layout, none) == 0);
    assert(count_long(layout, none) == 0);
    if to_read == 0 {
        assert(all =~= none);
    } else if body.len() > 0 {
        lemma_run_records(layout, begun, open, slots as int, body, to_read, 0, 0);
    } else if reader::csv_finish(state.machine).record {
        let record = Record { ends: open.ends.push(open.bytes.len()), ..open };
        assert(all =~= seq![record]);
        assert(all.drop_first() =~= none);
        assert(seq![record] + none =~= seq![record]);
        lemma_last_record(open);
        if n == 0 {
            assert(accepted(layout, all) =~= none);
        } else {
            let ended = DecoderState {
                machine: reader::csv_finish(state.machine).next,
                ..begun
            };
            let last = if state.skipping {
                assert(record.ends.take(open.ends.len() as int) =~= open.ends);
                assert(record.bytes.take(open.bytes.len() as int) =~= open.bytes);
                laws::lemma_cut_longer(open, record, n);
                ended
            } else {
                DecoderState { current: record, ..ended }
            };
            lemma_end_record(layout, state, last, record);
            if is_accepted(layout, record) {
                assert(accepted(layout, all.drop_first()) =~= none);
                assert(accepted(layout, all) =~= all);
            } else {
                assert(accepted(layout, all) =~= none);
            }
        }
    } else {
        assert(all =~= none);
    }
}

/// The end of all data ends the last field.
pub(crate) proof fn lemma_last_record(open: Record)
    requires
        open.valid(),
    ensures
        (Record { ends: open.ends.push(open.bytes.len()), ..open }).valid(),
{
    let record = Record { ends: open.ends.push(open.bytes.len()), ..open };
    assert forall|i: int, j: int| 0 <= i <= j < record.ends.len() implies record.ends[i]
        <= #[trigger] record.ends[j] && (#[trigger] record.ends[i]) <= record.bytes.len() by {
        if i < open.ends.len() {
            assert(open.ends[i] <= open.bytes.len());
            if j < open.ends.len() {
                assert(open.ends[i] <= open.ends[j]);
            }
        }
    }
}

/// The ends of the fields of a record are in order.
pub(crate) proof fn lemma_records_valid(machine: int, open: Record, input: Seq<u8>, pos: int)
    requires
        open.valid(),
    ensures
        ({
            let (records, last) = records_in(machine, open, input, pos);
            &&& forall|i: int| 0 <= i < records.len() ==> (#[trigger] records[i]).valid()
            &&& last.valid()
        }),
    decreases input.len() - pos,
{
    if pos < input.len() {
        let step = reader::csv_step(machine, input[pos]);
        let longer = extended(open, step, input[pos]);
        lemma_extended_valid(open, step, input[pos]);
        if step.boundary is Record {
            lemma_records_valid(step.next, Record::empty(), input, pos + 1);
        } else {
            lemma_records_valid(step.next, longer, input, pos + 1);
        }
    }
}

proof fn lemma_extended_valid(open: Record, step: Step, byte: u8)
    requires
        open.valid(),
    ensures
        extended(open, step, byte).valid(),
{
    let longer = extended(open, step, byte);
    assert forall|i: int, j: int| 0 <= i <= j < longer.ends.len() implies longer.ends[i]
        <= #[trigger] longer.ends[j] && (#[trigger] longer.ends[i]) <= longer.bytes.len() by {
        if i < open.ends.len() {
            assert(open.ends[i] <= open.bytes.len());
            if j < open.ends.len() {
                assert(open.ends[i] <= open.ends[j]);
            }
        }
    }
}

/// A row has a field for each column: those of the record, and empty ones where
/// the record has no more.
pub proof fn lemma_row_fields(layout: Layout, record: Record, column: int)
    requires
        record.valid(),
        0 <= column < layout.num_columns,
    ensures
        row_of(layout, record).ends.len() == layout.num_columns,
        row_of(layout, record).field(column) == if column < record.ends.len() {
            record.field(column)
        } else {
            Seq::empty()
        },
{
    let row = row_of(layout, record);
    let n = layout.num_columns as int;
    let fields = record.ends.len() as int;
    if column < fields {
        assert(record.ends[column] <= record.bytes.len());
        if column > 0 {
            assert(record.ends[column - 1] <= record.ends[column]);
        }
        if is_long(layout, record) {
            assert(record.ends[column] <= record.ends[n - 1]);
            assert(record.ends[n - 1] <= record.bytes.len());
        }
        assert(row.field(column) =~= record.field(column));
    } else {
        if fields > 0 {
            assert(record.ends[fields - 1] <= record.bytes.len());
        }
        assert(row.field(column) =~= Seq::empty());
    }
}

/// What a new decoder makes of input in which every record has ended: as many rows
/// as there are records, or as were asked for if there are more. They can be
/// flushed if the fields are text, and hold these fields, with empty ones where a
/// record has too few and without those in excess where it has too many.
pub proof fn lemma_records_come_back(
    before: &RecordDecoder,
    after: &RecordDecoder,
    input: Seq<u8>,
    to_read: nat,
)
    requires
        before.num_columns > 0,
        before@.rows.len() == 0,
        before@.current == Record::empty(),
        !before@.skipping,
        to_read > 0,
        model::decode(before.layout(), before@, input, to_read) matches Outcome::Done {
            state,
            ..
        } && after@ == state,
        after.wf(),
        after.layout() == before.layout(),
        after.offsets_len <= after.offsets@.len(),
        records_of_call(before@.started, before@.machine, Record::empty(), input).1
            == Record::empty(),
        ({
            let records = records_of_call(
                before@.started,
                before@.machine,
                Record::empty(),
                input,
            ).0;
            forall|i: int| 0 <= i < records.len() ==> flush::is_text(#[trigger] records[i])
        }),
    ensures
        ({
            let records = records_of_call(
                before@.started,
                before@.machine,
                Record::empty(),
                input,
            ).0;
            let n = if records.len() <= to_read {
                records.len()
            } else {
                to_read
            };
            &&& model::decode(before.layout(), before@, input, to_read)->read == n
            &&& after.num_rows == n
            &&& after.flush_error() is None
            &&& forall|row: int|
                0 <= row < n ==> (#[trigger] after@.rows[row]).ends.len() == after.num_columns
            &&& forall|row: int, column: int|
                0 <= row < n && 0 <= column < after.num_columns ==> (
                #[trigger] after@.rows[row].field(column)) == if column < records[row].ends.len() {
                    records[row].field(column)
                } else {
                    Seq::empty()
                }
        }),
{
    let layout = before.layout();
    let none = Record::empty();
    let (records, last) = records_of_call(before@.started, before@.machine, none, input);
    let all = first(records, to_read);
    let body = input.skip(reader::bom_len(before@.started, input) as int);
    lemma_decode_records(layout, before@, none, input, to_read);
    lemma_records_valid(before@.machine, none, body, 0);
    lemma_last_record(none);
    assert(after@.rows =~= rows_of(layout, all));
    assert(after@.current == none && !after@.skipping);
    assert(after.current().bytes.len() == 0);
    assert(!after.is_partial());
    assert forall|row: int| 0 <= row < all.len() implies (#[trigger] after@.rows[row]).ends.len()
        == after.num_columns by {
        lemma_row_fields(layout, records[row], 0);
    }
    assert forall|row: int, column: int|
        0 <= row < all.len() && 0 <= column < after.num_columns implies (
    #[trigger] after@.rows[row].field(column)) == if column < records[row].ends.len() {
        records[row].field(column)
    } else {
        Seq::empty()
    } by {
        lemma_row_fields(layout, records[row], column);
    }
    assert forall|row: int| 0 <= row < after.num_rows implies flush::is_text(
        #[trigger] after@.rows[row],
    ) by {
        assert forall|column: int| 0 <= column < after@.rows[row].ends.len() implies
            utf8::valid_utf8(#[trigger] after@.rows[row].field(column)) by {
            assert(flush::is_text(records[row]));
            if column < records[row].ends.len() {
                assert(utf8::valid_utf8(records[row].field(column)));
            }
        }
    }
    after.lemma_flush_accepts_text();
}

} // verus!
