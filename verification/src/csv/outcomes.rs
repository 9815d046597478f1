//! What a decoding call comes to, in terms of the records in its input.

use crate::csv::error::CsvError;
use crate::csv::laws;
use crate::csv::model;
use crate::csv::model::{DecoderState, Layout, Outcome, Record};
use crate::csv::parsing;
use crate::csv::reader;
use crate::csv::records::RecordDecoder;
use vstd::prelude::*;

verus! {

/// The state that a CSV reader gets to by walking over `bytes`.
pub open spec fn walked(machine: int, bytes: Seq<u8>) -> int {
    bytes.fold_left(machine, |state: int, byte: u8| reader::csv_step(state, byte).next)
}

/// The record that is open at the end of `input` had `slots` fields already before
/// the last byte of it.
pub open spec fn goes_beyond(
    machine: int,
    open: Record,
    input: Seq<u8>,
    pos: int,
    slots: int,
) -> bool {
    let records = parsing::records_in(machine, open, input, pos).0;
    let (earlier, unfinished) = parsing::records_in(machine, open, input.drop_last(), pos);
    pos < input.len() && earlier.len() == records.len() && unfinished.ends.len() >= slots
}

/// The error for a record that makes no row, where there is space for `slots` fields.
pub open spec fn error_of(layout: Layout, line: nat, slots: int, fields: nat) -> CsvError {
    if fields > slots {
        CsvError::TooManyFields {
            line: line as usize,
            expected: layout.num_columns as usize,
            more_than: slots as usize,
        }
    } else {
        CsvError::IncorrectFields {
            line: line as usize,
            expected: layout.num_columns as usize,
            got: fields as usize,
        }
    }
}

/// What `part` holds is what `record` starts with.
pub open spec fn starts_with(record: Record, part: Record) -> bool {
    &&& part.ends.len() <= record.ends.len()
    &&& part.bytes.len() <= record.bytes.len()
    &&& part.ends == record.ends.take(part.ends.len() as int)
    &&& part.bytes == record.bytes.take(part.bytes.len() as int)
}

/// `n` records in front make rows, and the next one does not: it has ended, or has
/// no end in the input and more fields than there is space for. It stays open, with
/// the fields that there was space for.
spec fn stops_at(
    layout: Layout,
    machine: int,
    line: nat,
    open: Record,
    slots: int,
    input: Seq<u8>,
    want: nat,
    pos: int,
    error: CsvError,
    failed: DecoderState,
    n: int,
) -> bool {
    let (records, last) = parsing::records_in(machine, open, input, pos);
    let left = slots - n * layout.num_columns;
    &&& !failed.skipping
    &&& 0 <= n < want
    &&& n <= records.len()
    &&& forall|i: int| 0 <= i < n ==> parsing::is_accepted(layout, #[trigger] records[i])
    &&& if n < records.len() {
        &&& !parsing::is_accepted(layout, records[n])
        &&& error == error_of(layout, (line + n) as nat, left, records[n].ends.len())
        &&& if records[n].ends.len() <= left {
            failed.current == records[n]
        } else {
            failed.current.ends.len() == left && starts_with(records[n], failed.current)
        }
    } else {
        &&& failed.current.ends.len() == left && starts_with(last, failed.current)
        &&& !layout.ignore_extra_columns
        &&& goes_beyond(machine, open, input, pos, left)
        &&& error == error_of(layout, (line + n) as nat, left, (left + 1) as nat)
    }
}

/// An outcome is that of the records in the input.
spec fn is_explained(
    layout: Layout,
    state: DecoderState,
    open: Record,
    slots: int,
    input: Seq<u8>,
    want: nat,
    pos: int,
    outcome: Outcome,
) -> bool {
    let records = parsing::records_in(state.machine, open, input, pos).0;
    let left = slots - records.len() * layout.num_columns;
    match outcome {
        Outcome::Done { .. } => {
            &&& forall|i: int|
                0 <= i < want && i < records.len() ==> parsing::is_accepted(
                    layout,
                    #[trigger] records[i],
                )
            &&& records.len() < want && !layout.ignore_extra_columns ==> !goes_beyond(
                state.machine,
                open,
                input,
                pos,
                left,
            )
        },
        Outcome::Failed { error, state: failed } => exists|n: int| #[trigger]
            stops_at(
                layout,
                state.machine,
                state.line,
                open,
                slots,
                input,
                want,
                pos,
                error,
                failed,
                n,
            ),
    }
}

/// When a run fails, and how.
proof fn lemma_run_outcome(
    layout: Layout,
    state: DecoderState,
    open: Record,
    slots: int,
    input: Seq<u8>,
    want: nat,
    read: nat,
    pos: int,
)
    requires
        parsing::tracks(layout, state, open),
        layout.ignore_extra_columns ==> layout.num_columns > 0,
        want * layout.num_columns <= slots,
        0 <= pos <= input.len(),
        want > 0 && !layout.ignore_extra_columns ==> open.ends.len() <= slots,
        want > 0 && layout.ignore_extra_columns && !state.skipping ==> open.ends.len() <= slots,
    ensures
        is_explained(
            layout,
            state,
            open,
            slots,
            input,
            want,
            pos,
            model::run(layout, state, slots, input, want, read, pos),
        ),
    decreases input.len() - pos,
{
    let n = layout.num_columns;
    let machine = state.machine;
    let records = parsing::records_in(machine, open, input, pos).0;
    assert(0 * n == 0) by (nonlinear_arith);
    if pos < input.len() && want > 0 {
        assert(n <= want * n && (want - 1) * n == want * n - n) by (nonlinear_arith)
            requires
                want > 0,
        ;
        let byte = input[pos];
        let step = reader::csv_step(machine, byte);
        let longer = parsing::extended(open, step, byte);
        let shorter = input.drop_last();
        if pos < shorter.len() {
            assert(shorter[pos] == byte);
        }
        if model::is_full(state, slots) && !layout.ignore_extra_columns {
            parsing::lemma_first_record(machine, open, input, pos);
            lemma_record_grows(machine, open, input, pos);
            if records.len() == 0 {
                lemma_more_fields(machine, open, input, pos);
            }
            let outcome = model::run(layout, state, slots, input, want, read, pos);
            assert(stops_at(
                layout,
                machine,
                state.line,
                open,
                slots,
                input,
                want,
                pos,
                outcome->error,
                outcome->Failed_state,
                0,
            ));
        } else {
            let ready = if model::is_full(state, slots) {
                model::start_skipping(layout, state)
            } else {
                state
            };
            parsing::lemma_take_byte(layout, ready, open, byte);
            let next = model::take_byte(ready, byte);
            if step.boundary is Record {
                parsing::lemma_end_record(layout, state, next, longer);
                let rest = parsing::records_in(step.next, Record::empty(), input, pos + 1).0;
                assert(records =~= seq![longer] + rest);
                match model::end_record(layout, next) {
                    Ok(ended) => {
                        let fewer = (want - 1) as nat;
                        let left = slots - n;
                        lemma_run_outcome(
                            layout,
                            ended,
                            Record::empty(),
                            left,
                            input,
                            fewer,
                            read + 1,
                            pos + 1,
                        );
                        lemma_next_record(
                            layout,
                            state,
                            ended,
                            open,
                            slots,
                            input,
                            want,
                            pos,
                        );
                        let outcome = model::run(
                            layout,
                            ended,
                            left,
                            input,
                            fewer,
                            read + 1,
                            pos + 1,
                        );
                        if outcome is Done {
                            assert forall|i: int|
                                0 <= i < want && i < records.len() implies parsing::is_accepted(
                                layout,
                                #[trigger] records[i],
                            ) by {
                                if i > 0 {
                                    assert(records[i] == rest[i - 1]);
                                }
                            }
                        }
                        if let Outcome::Failed { error, state: failed } = outcome {
                            let k = choose|k: int| #[trigger]
                                stops_at(
                                    layout,
                                    ended.machine,
                                    ended.line,
                                    Record::empty(),
                                    left,
                                    input,
                                    fewer,
                                    pos + 1,
                                    error,
                                    failed,
                                    k,
                                );
                            assert(stops_at(
                                layout,
                                machine,
                                state.line,
                                open,
                                slots,
                                input,
                                want,
                                pos,
                                error,
                                failed,
                                k + 1,
                            ));
                        }
                        assert(is_explained(
                            layout,
                            state,
                            open,
                            slots,
                            input,
                            want,
                            pos,
                            outcome,
                        ));
                    },
                    Err(error) => {
                        assert(records[0] == longer);
                        let outcome = model::run(layout, state, slots, input, want, read, pos);
                        assert(outcome == (Outcome::Failed { error, state: next }));
                        assert(stops_at(
                            layout,
                            machine,
                            state.line,
                            open,
                            slots,
                            input,
                            want,
                            pos,
                            outcome->error,
                            outcome->Failed_state,
                            0,
                        ));
                    },
                }
            } else {
                lemma_run_outcome(layout, next, longer, slots, input, want, read, pos + 1);
                lemma_next_byte(layout, state, next, open, slots, input, want, pos);
                let outcome = model::run(layout, next, slots, input, want, read, pos + 1);
                if let Outcome::Failed { error, state: failed } = outcome {
                    let k = choose|k: int| #[trigger]
                        stops_at(
                            layout,
                            next.machine,
                            next.line,
                            longer,
                            slots,
                            input,
                            want,
                            pos + 1,
                            error,
                            failed,
                            k,
                        );
                    assert(stops_at(
                        layout,
                        machine,
                        state.line,
                        open,
                        slots,
                        input,
                        want,
                        pos,
                        error,
                        failed,
                        k,
                    ));
                }
                assert(is_explained(layout, state, open, slots, input, want, pos, outcome));
            }
        }
    }
}

/// A record keeps what it has while it grows.
proof fn lemma_record_grows(machine: int, open: Record, input: Seq<u8>, pos: int)
    ensures
        ({
            let (records, last) = parsing::records_in(machine, open, input, pos);
            starts_with(
                if records.len() > 0 {
                    records[0]
                } else {
                    last
                },
                open,
            )
        }),
    decreases input.len() - pos,
{
    assert(open.ends.take(open.ends.len() as int) =~= open.ends);
    assert(open.bytes.take(open.bytes.len() as int) =~= open.bytes);
    if pos < input.len() {
        let step = reader::csv_step(machine, input[pos]);
        let longer = parsing::extended(open, step, input[pos]);
        assert(longer.ends.take(open.ends.len() as int) =~= open.ends);
        assert(longer.bytes.take(open.bytes.len() as int) =~= open.bytes);
        if !(step.boundary is Record) {
            lemma_record_grows(step.next, longer, input, pos + 1);
            let (records, last) = parsing::records_in(machine, open, input, pos);
            let whole = if records.len() > 0 {
                records[0]
            } else {
                last
            };
            assert(whole.ends.take(open.ends.len() as int) =~= longer.ends.take(
                open.ends.len() as int,
            ));
            assert(whole.bytes.take(open.bytes.len() as int) =~= longer.bytes.take(
                open.bytes.len() as int,
            ));
        }
    }
}

/// Fields are only added to a record that stays open.
proof fn lemma_more_fields(machine: int, open: Record, input: Seq<u8>, pos: int)
    requires
        0 <= pos < input.len(),
        parsing::records_in(machine, open, input, pos).0.len() == 0,
    ensures
        parsing::records_in(machine, open, input.drop_last(), pos).0.len() == 0,
        parsing::records_in(machine, open, input.drop_last(), pos).1.ends.len() >= open.ends.len(),
    decreases input.len() - pos,
{
    let step = reader::csv_step(machine, input[pos]);
    let longer = parsing::extended(open, step, input[pos]);
    if step.boundary is Record {
        let rest = parsing::records_in(step.next, Record::empty(), input, pos + 1).0;
        assert((seq![longer] + rest).len() > 0);
    } else if pos + 1 < input.len() {
        assert(input.drop_last()[pos] == input[pos]);
        lemma_more_fields(step.next, longer, input, pos + 1);
    }
}

/// What holds of the rest of a run holds of all of it, if no record has ended.
proof fn lemma_next_byte(
    layout: Layout,
    state: DecoderState,
    next: DecoderState,
    open: Record,
    slots: int,
    input: Seq<u8>,
    want: nat,
    pos: int,
)
    requires
        0 <= pos < input.len(),
        want > 0,
        next.machine == reader::csv_step(state.machine, input[pos]).next,
        next.line == state.line,
        !(reader::csv_step(state.machine, input[pos]).boundary is Record),
        !layout.ignore_extra_columns ==> open.ends.len() < slots,
    ensures
        ({
            let longer = parsing::extended(
                open,
                reader::csv_step(state.machine, input[pos]),
                input[pos],
            );
            let records = parsing::records_in(state.machine, open, input, pos).0;
            let left = slots - records.len() * layout.num_columns;
            &&& records == parsing::records_in(next.machine, longer, input, pos + 1).0
            &&& records.len() < want && !layout.ignore_extra_columns && goes_beyond(
                state.machine,
                open,
                input,
                pos,
                left,
            ) ==> goes_beyond(next.machine, longer, input, pos + 1, left)
            &&& forall|error: CsvError, failed: DecoderState, n: int| #[trigger]
                stops_at(
                    layout,
                    next.machine,
                    next.line,
                    longer,
                    slots,
                    input,
                    want,
                    pos + 1,
                    error,
                    failed,
                    n,
                ) ==> stops_at(
                    layout,
                    state.machine,
                    state.line,
                    open,
                    slots,
                    input,
                    want,
                    pos,
                    error,
                    failed,
                    n,
                )
        }),
{
    let n = layout.num_columns;
    let shorter = input.drop_last();
    assert(0 * n == 0) by (nonlinear_arith);
    if pos < shorter.len() {
        assert(shorter[pos] == input[pos]);
    }
}

/// What holds of the rest of a run holds of all of it, with the record in front that
/// has made a row.
proof fn lemma_next_record(
    layout: Layout,
    state: DecoderState,
    ended: DecoderState,
    open: Record,
    slots: int,
    input: Seq<u8>,
    want: nat,
    pos: int,
)
    requires
        0 <= pos < input.len(),
        want > 0,
        ended.machine == reader::csv_step(state.machine, input[pos]).next,
        ended.line == state.line + 1,
        reader::csv_step(state.machine, input[pos]).boundary is Record,
        parsing::is_accepted(
            layout,
            parsing::extended(open, reader::csv_step(state.machine, input[pos]), input[pos]),
        ),
    ensures
        ({
            let none = Record::empty();
            let longer = parsing::extended(
                open,
                reader::csv_step(state.machine, input[pos]),
                input[pos],
            );
            let records = parsing::records_in(state.machine, open, input, pos).0;
            let rest = parsing::records_in(ended.machine, none, input, pos + 1).0;
            let n = layout.num_columns;
            &&& records == seq![longer] + rest
            &&& goes_beyond(state.machine, open, input, pos, slots - records.len() * n)
                ==> goes_beyond(
                ended.machine,
                none,
                input,
                pos + 1,
                (slots - n) - rest.len() * n,
            )
            &&& forall|error: CsvError, failed: DecoderState, k: int| #[trigger]
                stops_at(
                    layout,
                    ended.machine,
                    ended.line,
                    none,
                    slots - n,
                    input,
                    (want - 1) as nat,
                    pos + 1,
                    error,
                    failed,
                    k,
                ) ==> stops_at(
                    layout,
                    state.machine,
                    state.line,
                    open,
                    slots,
                    input,
                    want,
                    pos,
                    error,
                    failed,
                    k + 1,
                )
        }),
{
    let n = layout.num_columns;
    let none = Record::empty();
    let step = reader::csv_step(state.machine, input[pos]);
    let longer = parsing::extended(open, step, input[pos]);
    let records = parsing::records_in(state.machine, open, input, pos).0;
    let rest = parsing::records_in(ended.machine, none, input, pos + 1).0;
    let shorter = input.drop_last();
    assert(records =~= seq![longer] + rest);
    assert(records.len() * n == rest.len() * n + n) by (nonlinear_arith)
        requires
            records.len() == rest.len() + 1,
    ;
    if pos < shorter.len() {
        assert(shorter[pos] == input[pos]);
        let short_rest = parsing::records_in(ended.machine, none, shorter, pos + 1).0;
        assert(parsing::records_in(state.machine, open, shorter, pos).0 =~= seq![longer]
            + short_rest);
    }
    let beyond = (slots - n) - rest.len() * n;
    assert(goes_beyond(state.machine, open, input, pos, slots - records.len() * n)
        ==> goes_beyond(ended.machine, none, input, pos + 1, beyond));
    if goes_beyond(ended.machine, none, input, pos + 1, beyond) {
        assert(goes_beyond(state.machine, open, input, pos, beyond));
    }
    assert forall|error: CsvError, failed: DecoderState, k: int| #[trigger]
        stops_at(
            layout,
            ended.machine,
            ended.line,
            none,
            slots - n,
            input,
            (want - 1) as nat,
            pos + 1,
            error,
            failed,
            k,
        ) implies stops_at(
        layout,
        state.machine,
        state.line,
        open,
        slots,
        input,
        want,
        pos,
        error,
        failed,
        k + 1,
    ) by {
        assert((k + 1) * n == k * n + n) by (nonlinear_arith);
        assert forall|i: int| 0 <= i < k + 1 implies parsing::is_accepted(
            layout,
            #[trigger] records[i],
        ) by {
            if i > 0 {
                assert(records[i] == rest[i - 1]);
            }
        }
        if k < rest.len() {
            assert(records[k + 1] == rest[k]);
        }
    }
}

/// Of the bytes from `pos` on, just those up to `end` are needed for `want` records.
spec fn ends_there(
    machine: int,
    open: Record,
    input: Seq<u8>,
    pos: int,
    want: nat,
    end: int,
) -> bool {
    let records = parsing::records_in(machine, open, input, pos).0;
    &&& pos < end <= input.len()
    &&& parsing::records_in(machine, open, input.take(end), pos) == (
        records.take(want as int),
        Record::empty(),
    )
    &&& parsing::records_in(machine, open, input.take(end - 1), pos).0.len() < want
}

proof fn lemma_walked(machine: int, input: Seq<u8>, pos: int, end: int)
    requires
        0 <= pos < end <= input.len(),
    ensures
        walked(machine, input.subrange(pos, end)) == walked(
            reader::csv_step(machine, input[pos]).next,
            input.subrange(pos + 1, end),
        ),
{
    let f = |state: int, byte: u8| reader::csv_step(state, byte).next;
    let bytes = input.subrange(pos, end);
    let rest = input.subrange(pos + 1, end);
    bytes.lemma_fold_left_alt(machine, f);
    rest.lemma_fold_left_alt(f(machine, input[pos]), f);
    assert(bytes.subrange(1, bytes.len() as int) =~= rest);
}

/// How far a run gets that does not fail, and where it leaves the CSV reader.
proof fn lemma_run_consumes(
    layout: Layout,
    state: DecoderState,
    open: Record,
    slots: int,
    input: Seq<u8>,
    want: nat,
    read: nat,
    pos: int,
)
    requires
        0 <= pos <= input.len(),
    ensures
        model::run(layout, state, slots, input, want, read, pos) matches Outcome::Done {
            state: after,
            consumed,
            ..
        } ==> {
            let records = parsing::records_in(state.machine, open, input, pos).0;
            &&& pos <= consumed <= input.len()
            &&& after.started == state.started
            &&& after.machine == walked(state.machine, input.subrange(pos, consumed as int))
            &&& want == 0 ==> consumed == pos
            &&& records.len() < want ==> consumed == input.len()
            &&& 0 < want <= records.len() ==> ends_there(
                state.machine,
                open,
                input,
                pos,
                want,
                consumed as int,
            )
        },
    decreases input.len() - pos,
{
    let machine = state.machine;
    let none = Record::empty();
    assert(input.subrange(pos, pos) =~= Seq::empty());
    assert(walked(machine, Seq::empty()) == machine);
    if pos < input.len() && want > 0 && !(model::is_full(state, slots)
        && !layout.ignore_extra_columns) {
        let ready = if model::is_full(state, slots) {
            model::start_skipping(layout, state)
        } else {
            state
        };
        let byte = input[pos];
        let step = reader::csv_step(machine, byte);
        let longer = parsing::extended(open, step, byte);
        let next = model::take_byte(ready, byte);
        let records = parsing::records_in(machine, open, input, pos).0;
        assert forall|end: int| pos < end <= input.len() implies #[trigger] input.take(end)[pos]
            == byte by {}
        if step.boundary is Record {
            if let Ok(ended) = model::end_record(layout, next) {
                let left = slots - layout.num_columns;
                let fewer = (want - 1) as nat;
                lemma_run_consumes(layout, ended, none, left, input, fewer, read + 1, pos + 1);
                let rest = parsing::records_in(step.next, none, input, pos + 1).0;
                assert(records =~= seq![longer] + rest);
                if let Outcome::Done { consumed, .. } = model::run(
                    layout,
                    ended,
                    left,
                    input,
                    fewer,
                    read + 1,
                    pos + 1,
                ) {
                    let end = consumed as int;
                    lemma_walked(machine, input, pos, end);
                    if want <= records.len() {
                        let head = input.take(end);
                        let shorter = input.take(end - 1);
                        assert(head[pos] == byte);
                        let taken = parsing::records_in(step.next, none, head, pos + 1).0;
                        assert(taken =~= rest.take(want - 1));
                        assert(parsing::records_in(machine, open, head, pos).0 =~= seq![longer]
                            + taken);
                        assert(records.take(want as int) =~= seq![longer] + taken);
                        if end - 1 > pos {
                            assert(shorter[pos] == byte);
                            let fewer_taken = parsing::records_in(
                                step.next,
                                none,
                                shorter,
                                pos + 1,
                            ).0;
                            assert(parsing::records_in(machine, open, shorter, pos).0
                                =~= seq![longer] + fewer_taken);
                        }
                    }
                }
            }
        } else {
            lemma_run_consumes(layout, next, longer, slots, input, want, read, pos + 1);
            if let Outcome::Done { consumed, .. } = model::run(
                layout,
                next,
                slots,
                input,
                want,
                read,
                pos + 1,
            ) {
                let end = consumed as int;
                lemma_walked(machine, input, pos, end);
                assert(input.take(end)[pos] == byte);
                if end - 1 > pos {
                    assert(input.take(end - 1)[pos] == byte);
                }
            }
        }
    }
}

/// Just the bytes up to `end` have been read when a run fails: those of the records
/// that have made rows, and then those of the record that makes none, or of its part
/// that there is space for.
spec fn fails_there(
    machine: int,
    open: Record,
    input: Seq<u8>,
    pos: int,
    error: CsvError,
    failed: DecoderState,
    n: int,
    end: int,
) -> bool {
    let records = parsing::records_in(machine, open, input, pos).0;
    &&& pos <= end <= input.len()
    &&& failed.machine == walked(machine, input.subrange(pos, end))
    &&& if error is IncorrectFields {
        &&& 0 <= n < records.len()
        &&& parsing::records_in(machine, open, input.take(end), pos) == (
            records.take(n + 1),
            Record::empty(),
        )
    } else {
        &&& 0 <= n <= records.len()
        &&& parsing::records_in(machine, open, input.take(end), pos) == (
            records.take(n),
            failed.current,
        )
    }
}

/// How far a run gets that fails, and where it leaves the CSV reader.
proof fn lemma_run_fails(
    layout: Layout,
    state: DecoderState,
    open: Record,
    slots: int,
    input: Seq<u8>,
    want: nat,
    read: nat,
    pos: int,
)
    requires
        parsing::tracks(layout, state, open),
        layout.ignore_extra_columns ==> layout.num_columns > 0,
        want * layout.num_columns <= slots,
        0 <= pos <= input.len(),
    ensures
        model::run(layout, state, slots, input, want, read, pos) matches Outcome::Failed {
            error,
            state: failed,
        } ==> exists|end: int| #[trigger]
            fails_there(
                state.machine,
                open,
                input,
                pos,
                error,
                failed,
                failed.rows.len() - state.rows.len(),
                end,
            ),
    decreases input.len() - pos,
{
    let machine = state.machine;
    let none = Record::empty();
    let outcome = model::run(layout, state, slots, input, want, read, pos);
    let records = parsing::records_in(machine, open, input, pos).0;
    assert(input.subrange(pos, pos) =~= Seq::empty());
    assert(walked(machine, Seq::empty()) == machine);
    if pos < input.len() && want > 0 {
        let n = layout.num_columns;
        assert(n <= want * n && (want - 1) * n == want * n - n) by (nonlinear_arith)
            requires
                want > 0,
        ;
        let byte = input[pos];
        let step = reader::csv_step(machine, byte);
        let longer = parsing::extended(open, step, byte);
        assert(input.take(pos + 1)[pos] == byte);
        if model::is_full(state, slots) && !layout.ignore_extra_columns {
            assert(records.take(0) =~= Seq::empty());
            assert(fails_there(
                machine,
                open,
                input,
                pos,
                outcome->error,
                outcome->Failed_state,
                outcome->Failed_state.rows.len() - state.rows.len(),
                pos,
            ));
        } else {
            let ready = if model::is_full(state, slots) {
                model::start_skipping(layout, state)
            } else {
                state
            };
            parsing::lemma_take_byte(layout, ready, open, byte);
            let next = model::take_byte(ready, byte);
            if step.boundary is Record {
                parsing::lemma_end_record(layout, state, next, longer);
                let rest = parsing::records_in(step.next, none, input, pos + 1).0;
                assert(records =~= seq![longer] + rest);
                match model::end_record(layout, next) {
                    Ok(ended) => {
                        let left = slots - layout.num_columns;
                        let fewer = (want - 1) as nat;
                        lemma_run_fails(layout, ended, none, left, input, fewer, read + 1, pos + 1);
                        if let Outcome::Failed { error, state: failed } = outcome {
                            let n = failed.rows.len() - ended.rows.len();
                            let end = choose|end: int| #[trigger]
                                fails_there(
                                    ended.machine,
                                    none,
                                    input,
                                    pos + 1,
                                    error,
                                    failed,
                                    n,
                                    end,
                                );
                            lemma_walked(machine, input, pos, end);
                            let head = input.take(end);
                            assert(head[pos] == byte);
                            let taken = parsing::records_in(step.next, none, head, pos + 1).0;
                            assert(parsing::records_in(machine, open, head, pos).0 =~= seq![longer]
                                + taken);
                            assert(records.take(n + 1) =~= seq![longer] + rest.take(n));
                            if error is IncorrectFields {
                                assert(records.take(n + 2) =~= seq![longer] + rest.take(n + 1));
                            }
                            assert(ended.rows.len() == state.rows.len() + 1);
                            assert(fails_there(
                                machine,
                                open,
                                input,
                                pos,
                                error,
                                failed,
                                failed.rows.len() - state.rows.len(),
                                end,
                            ));
                        }
                    },
                    Err(error) => {
                        let head = input.take(pos + 1);
                        lemma_walked(machine, input, pos, pos + 1);
                        assert(input.subrange(pos + 1, pos + 1) =~= Seq::empty());
                        assert(walked(step.next, Seq::empty()) == step.next);
                        let after = Seq::<Record>::empty();
                        assert(parsing::records_in(step.next, none, head, pos + 1) == (
                            after,
                            none,
                        ));
                        assert(seq![longer] + after =~= records.take(1));
                        assert(outcome->Failed_state.rows == state.rows);
                        assert(fails_there(
                            machine,
                            open,
                            input,
                            pos,
                            outcome->error,
                            outcome->Failed_state,
                            outcome->Failed_state.rows.len() - state.rows.len(),
                            pos + 1,
                        ));
                    },
                }
            } else {
                lemma_run_fails(layout, next, longer, slots, input, want, read, pos + 1);
                if let Outcome::Failed { error, state: failed } = outcome {
                    let n = failed.rows.len() - next.rows.len();
                    let end = choose|end: int| #[trigger]
                        fails_there(
                            next.machine,
                            longer,
                            input,
                            pos + 1,
                            error,
                            failed,
                            n,
                            end,
                        );
                    lemma_walked(machine, input, pos, end);
                    assert(input.take(end)[pos] == byte);
                    assert(fails_there(
                        machine,
                        open,
                        input,
                        pos,
                        error,
                        failed,
                        failed.rows.len() - state.rows.len(),
                        end,
                    ));
                }
            }
        }
    }
}

/// The records in front of the first one that makes no row.
proof fn lemma_accepted(layout: Layout, records: Seq<Record>, n: int)
    requires
        0 <= n <= records.len(),
        forall|i: int| 0 <= i < n ==> parsing::is_accepted(layout, #[trigger] records[i]),
        n < records.len() ==> !parsing::is_accepted(layout, records[n]),
    ensures
        parsing::accepted(layout, records) == records.take(n),
    decreases n,
{
    if n > 0 {
        let rest = records.drop_first();
        assert forall|i: int| 0 <= i < n - 1 implies parsing::is_accepted(
            layout,
            #[trigger] rest[i],
        ) by {
            assert(rest[i] == records[i + 1]);
        }
        lemma_accepted(layout, rest, n - 1);
        assert(parsing::is_accepted(layout, records[0]));
        assert(records.take(n) =~= seq![records[0]] + rest.take(n - 1));
    } else {
        assert(records.take(n) =~= Seq::empty());
    }
}

/// Counting records is filtering them.
proof fn lemma_counts(layout: Layout, records: Seq<Record>)
    ensures
        parsing::count_short(layout, records) == records.filter(
            |record: Record| record.ends.len() < layout.num_columns,
        ).len(),
        parsing::count_long(layout, records) == records.filter(
            |record: Record| record.ends.len() > layout.num_columns,
        ).len(),
    decreases records.len(),
{
    reveal(Seq::filter);
    let short = |record: Record| record.ends.len() < layout.num_columns;
    let long = |record: Record| record.ends.len() > layout.num_columns;
    if records.len() > 0 {
        let one = seq![records[0]];
        let rest = records.drop_first();
        lemma_counts(layout, rest);
        Seq::filter_distributes_over_add(one, rest, short);
        Seq::filter_distributes_over_add(one, rest, long);
        assert(records =~= one + rest);
        assert(one.drop_last() =~= Seq::empty());
        assert(one.drop_last().filter(short) =~= Seq::empty());
        assert(one.drop_last().filter(long) =~= Seq::empty());
        assert(one.filter(short).len() == if short(records[0]) {
            1nat
        } else {
            0
        });
        assert(one.filter(long).len() == if long(records[0]) {
            1nat
        } else {
            0
        });
    }
}

/// A call makes rows of `n` records, and refuses the next one.
spec fn refuses(
    layout: Layout,
    state: DecoderState,
    open: Record,
    input: Seq<u8>,
    to_read: nat,
    error: CsvError,
    failed: DecoderState,
    n: int,
) -> bool {
    let body = input.skip(reader::bom_len(state.started, input) as int);
    let (records, last) = parsing::records_of_call(state.started, state.machine, open, input);
    let left = state.current.ends.len() + to_read * layout.num_columns - n * layout.num_columns;
    &&& !failed.skipping
    &&& 0 <= n < to_read
    &&& n <= records.len()
    &&& parsing::accepted(layout, parsing::first(records, to_read)) == records.take(n)
    &&& forall|i: int| 0 <= i < n ==> parsing::is_accepted(layout, #[trigger] records[i])
    &&& if n < records.len() {
        &&& !parsing::is_accepted(layout, records[n])
        &&& error == error_of(layout, (state.line + n) as nat, left, records[n].ends.len())
        &&& if records[n].ends.len() <= left {
            failed.current == records[n]
        } else {
            failed.current.ends.len() == left && starts_with(records[n], failed.current)
        }
    } else {
        &&& failed.current.ends.len() == left && starts_with(last, failed.current)
        &&& !layout.ignore_extra_columns
        &&& goes_beyond(state.machine, open, body, 0, left)
        &&& error == error_of(layout, (state.line + n) as nat, left, (left + 1) as nat)
    }
}

/// When a call fails, and how; and how far it gets otherwise.
proof fn lemma_decode_outcome(
    layout: Layout,
    state: DecoderState,
    open: Record,
    input: Seq<u8>,
    to_read: nat,
)
    requires
        parsing::tracks(layout, state, open),
        layout.ignore_extra_columns ==> layout.num_columns > 0,
        to_read > 0,
    ensures
        ({
            let bom = reader::bom_len(state.started, input);
            let body = input.skip(bom as int);
            let records = parsing::records_of_call(state.started, state.machine, open, input).0;
            let slots = state.current.ends.len() + to_read * layout.num_columns;
            match model::decode(layout, state, input, to_read) {
                Outcome::Done { state: after, consumed, .. } => {
                    &&& forall|i: int|
                        0 <= i < to_read && i < records.len() ==> parsing::is_accepted(
                            layout,
                            #[trigger] records[i],
                        )
                    &&& records.len() < to_read && !layout.ignore_extra_columns ==> !goes_beyond(
                        state.machine,
                        open,
                        body,
                        0,
                        slots - records.len() * layout.num_columns,
                    )
                    &&& bom <= consumed <= input.len()
                    &&& records.len() < to_read || body.len() == 0 ==> consumed == input.len()
                    &&& to_read <= records.len() && body.len() > 0 ==> ends_there(
                        state.machine,
                        open,
                        body,
                        0,
                        to_read,
                        consumed - bom,
                    )
                    &&& after.started
                    &&& after.machine == if body.len() > 0 {
                        walked(state.machine, body.take(consumed - bom))
                    } else {
                        reader::csv_finish(state.machine).next
                    }
                },
                Outcome::Failed { error, state: failed } => exists|n: int| #[trigger]
                    refuses(layout, state, open, input, to_read, error, failed, n),
            }
        }),
{
    let n = layout.num_columns;
    let bom = reader::bom_len(state.started, input);
    let body = input.skip(bom as int);
    let slots = state.current.ends.len() + to_read * n;
    let begun = model::begun(state);
    let (records, _) = parsing::records_of_call(state.started, state.machine, open, input);
    assert(0 * n == 0) by (nonlinear_arith);
    assert(n <= to_read * n) by (nonlinear_arith)
        requires
            to_read > 0,
    ;
    if body.len() > 0 {
        lemma_run_outcome(layout, begun, open, slots as int, body, to_read, 0, 0);
        lemma_run_consumes(layout, begun, open, slots as int, body, to_read, 0, 0);
        match model::run(layout, begun, slots as int, body, to_read, 0, 0) {
            Outcome::Done { consumed, .. } => {
                assert(body.subrange(0, consumed as int) =~= body.take(consumed as int));
            },
            Outcome::Failed { error, state: failed } => {
                let k = choose|k: int| #[trigger]
                    stops_at(
                        layout,
                        state.machine,
                        state.line,
                        open,
                        slots as int,
                        body,
                        to_read,
                        0,
                        error,
                        failed,
                        k,
                    );
                let all = parsing::first(records, to_read);
                lemma_accepted(layout, all, k);
                assert(all.take(k) =~= records.take(k));
                assert(refuses(layout, state, open, input, to_read, error, failed, k));
            },
        }
    } else if reader::csv_finish(state.machine).record {
        let record = Record { ends: open.ends.push(open.bytes.len()), ..open };
        assert(records =~= seq![record]);
        let all = parsing::first(records, to_read);
        assert(all =~= records);
        parsing::lemma_last_record(open);
        if n == 0 {
            lemma_accepted(layout, all, 0);
            assert(all.take(0) =~= records.take(0));
            assert(to_read * n == 0) by (nonlinear_arith)
                requires
                    n == 0,
            ;
            let error = model::too_many_fields(layout, begun);
            assert(open.ends =~= record.ends.take(open.ends.len() as int));
            assert(open.bytes =~= record.bytes.take(open.bytes.len() as int));
            assert(refuses(layout, state, open, input, to_read, error, begun, 0));
        } else {
            let ended = DecoderState { machine: reader::csv_finish(state.machine).next, ..begun };
            let last = if state.skipping {
                assert(record.ends.take(open.ends.len() as int) =~= open.ends);
                assert(record.bytes.take(open.bytes.len() as int) =~= open.bytes);
                laws::lemma_cut_longer(open, record, n);
                ended
            } else {
                DecoderState { current: record, ..ended }
            };
            parsing::lemma_end_record(layout, state, last, record);
            if let Err(error) = model::end_record(layout, last) {
                lemma_accepted(layout, all, 0);
                assert(all.take(0) =~= records.take(0));
                assert(refuses(layout, state, open, input, to_read, error, last, 0));
            }
        }
    }
}

/// A call that is asked for rows makes them of the records in its input, in order.
///
/// It succeeds if and only if each of the first `to_read` records that end in the
/// input has as many fields as there are columns, or fewer where rows may be filled
/// up, or more where extra columns are ignored; and if the record that is still open
/// at the end of the input has not gone on beyond the fields that there is space for.
/// Then as many rows are added as records have ended, but no more than `to_read`. They
/// hold the fields of these records, empty ones where a record has too few, and none
/// of those in excess. Records with too few and with too many fields are counted. The
/// call takes all of the input, or just what it needs for `to_read` records.
///
/// Otherwise it adds the rows of the records in front of the first one that makes no
/// row. The error tells its line, how many fields were expected, and how many there
/// are, or for how many there was space. These fields stay in the record being read.
pub proof fn lemma_decode_makes_rows_of_records(
    before: RecordDecoder,
    after: RecordDecoder,
    open: Record,
    input: &[u8],
    to_read: usize,
    r: Result<(usize, usize), CsvError>,
)
    requires
        before.wf(),
        before.has_room(input@.len(), to_read as nat),
        to_read > 0,
        // the record being read, with all its fields
        parsing::tracks(before.layout(), before@, open),
        exists|decoder: &mut RecordDecoder| #[trigger]
            call_ensures(RecordDecoder::decode, (decoder, input, to_read), r) && *decoder == before
                && *final(decoder) == after,
    ensures
        ({
            let columns = before.num_columns as int;
            let machine = before@.machine;
            let bom = reader::bom_len(before@.started, input@) as int;
            let body = input@.skip(bom);
            let (records, last) = parsing::records_of_call(
                before@.started,
                machine,
                open,
                input@,
            );
            let n = after.num_rows - before.num_rows;
            let space = before.current_field + (to_read - n) * columns;
            &&& 0 <= n <= to_read && n <= records.len()
            &&& after.layout() == before.layout()
            &&& after.line_number == before.line_number + n
            &&& forall|i: int|
                0 <= i < before.num_rows ==> (#[trigger] after@.rows[i]) == before@.rows[i]
            &&& forall|i: int|
                0 <= i < n ==> {
                    let fields = (#[trigger] records[i]).ends.len();
                    &&& fields < columns ==> before.truncated_rows
                    &&& fields > columns ==> before.ignore_extra_columns
                    &&& after@.rows[before.num_rows + i].ends.len() == columns
                    &&& forall|column: int|
                        0 <= column < columns ==> (#[trigger] after@.rows[before.num_rows
                            + i].field(column)) == if column < fields {
                            records[i].field(column)
                        } else {
                            Seq::empty()
                        }
                }
            &&& after.truncated_row_count == before.truncated_row_count + records.take(n).filter(
                |record: Record| record.ends.len() < columns,
            ).len()
            &&& after.extra_column_row_count - (if after.skipping {
                1int
            } else {
                0
            }) == before.extra_column_row_count - (if before.skipping {
                1int
            } else {
                0
            }) + records.take(n).filter(|record: Record| record.ends.len() > columns).len()
            &&& match r {
                Ok((rows, bytes)) => {
                    &&& after.wf()
                    &&& after.offsets_len <= after.offsets@.len()
                    &&& rows == n
                    &&& n == to_read || n == records.len()
                    &&& n < to_read && !before.ignore_extra_columns ==> !goes_beyond(
                        machine,
                        open,
                        body,
                        0,
                        space,
                    )
                    &&& n < to_read || body.len() == 0 ==> bytes == input@.len()
                    &&& n == to_read && body.len() > 0 ==> {
                        &&& bom < bytes <= input@.len()
                        &&& parsing::records_in(machine, open, body.take(bytes - bom), 0) == (
                            records.take(n),
                            Record::empty(),
                        )
                        &&& parsing::records_in(
                            machine,
                            open,
                            body.take(bytes - bom - 1),
                            0,
                        ).0.len() < n
                    }
                    &&& parsing::tracks(
                        after.layout(),
                        after@,
                        if n < to_read {
                            last
                        } else {
                            Record::empty()
                        },
                    )
                    &&& after@.started
                    &&& after@.machine == if body.len() > 0 {
                        walked(machine, body.take(bytes - bom))
                    } else {
                        reader::csv_finish(machine).next
                    }
                },
                Err(error) => {
                    &&& n < to_read
                    &&& !after.skipping
                    &&& if n < records.len() {
                        let fields = records[n].ends.len();
                        &&& fields < columns && !before.truncated_rows || fields > columns
                            && !before.ignore_extra_columns
                        &&& if fields <= space {
                            &&& error matches CsvError::IncorrectFields { line, expected, got }
                                && line == before.line_number + n && expected == columns && got
                                == fields
                            &&& after@.current == records[n]
                        } else {
                            &&& error matches CsvError::TooManyFields { line, expected, more_than }
                                && line == before.line_number + n && expected == columns
                                && more_than == space
                            &&& after@.current.ends.len() == space
                            &&& starts_with(records[n], after@.current)
                        }
                    } else {
                        &&& after@.current.ends.len() == space
                        &&& starts_with(last, after@.current)
                        &&& !before.ignore_extra_columns
                        &&& goes_beyond(machine, open, body, 0, space)
                        &&& error matches CsvError::TooManyFields { line, expected, more_than }
                            && line == before.line_number + n && expected == columns && more_than
                            == space
                    }
                },
            }
        }),
{
    let layout = before.layout();
    let columns = before.num_columns as int;
    let state = before@;
    let records = parsing::records_of_call(state.started, state.machine, open, input@).0;
    let all = parsing::first(records, to_read as nat);
    let body = input@.skip(reader::bom_len(state.started, input@) as int);
    lemma_decode_outcome(layout, state, open, input@, to_read as nat);
    parsing::lemma_decode_records(layout, state, open, input@, to_read as nat);
    parsing::lemma_records_valid(state.machine, open, body, 0);
    parsing::lemma_last_record(open);
    let n = after.num_rows - before.num_rows;
    assert(after@.rows.len() == after.num_rows);
    assert(before@.rows.len() == before.num_rows);
    let good = if r is Ok {
        all
    } else {
        parsing::accepted(layout, all)
    };
    match model::decode(layout, state, input@, to_read as nat) {
        Outcome::Done { .. } => {
            assert(good == records.take(n));
        },
        Outcome::Failed { error, state: failed } => {
            let k = choose|k: int| #[trigger]
                refuses(layout, state, open, input@, to_read as nat, error, failed, k);
            assert(good == records.take(k));
            assert(n == k);
        },
    }
    assert((to_read - n) * columns == to_read * columns - n * columns) by (nonlinear_arith);
    assert(0 <= (to_read - n) * columns <= to_read * columns) by (nonlinear_arith)
        requires
            0 <= n <= to_read,
            0 <= columns,
    ;
    lemma_counts(layout, good);
    assert forall|i: int| 0 <= i < n implies {
        let fields = (#[trigger] records[i]).ends.len();
        &&& fields < columns ==> before.truncated_rows
        &&& fields > columns ==> before.ignore_extra_columns
        &&& after@.rows[before.num_rows + i].ends.len() == columns
        &&& forall|column: int|
            0 <= column < columns ==> (#[trigger] after@.rows[before.num_rows + i].field(column))
                == if column < fields {
                records[i].field(column)
            } else {
                Seq::empty()
            }
    } by {
        assert(good[i] == records[i]);
        assert(after@.rows[before.num_rows + i] == parsing::row_of(layout, records[i]));
        assert forall|column: int| 0 <= column < columns implies (
        #[trigger] after@.rows[before.num_rows + i].field(column)) == if column
            < records[i].ends.len() {
            records[i].field(column)
        } else {
            Seq::empty()
        } by {
            parsing::lemma_row_fields(layout, records[i], column);
        }
        if columns > 0 {
            parsing::lemma_row_fields(layout, records[i], 0);
        }
    }
}

/// A call that fails leaves the CSV reader behind the bytes of the records that have
/// made rows, and of the record that makes none, as far as it is being read.
pub proof fn lemma_decode_stops_at_a_refused_record(
    before: RecordDecoder,
    after: RecordDecoder,
    open: Record,
    input: &[u8],
    to_read: usize,
    error: CsvError,
)
    requires
        before.wf(),
        to_read > 0,
        parsing::tracks(before.layout(), before@, open),
        reader::bom_len(before@.started, input@) < input@.len(),
        exists|decoder: &mut RecordDecoder| #[trigger]
            call_ensures(
                RecordDecoder::decode,
                (decoder, input, to_read),
                Err::<(usize, usize), CsvError>(error),
            ) && *decoder == before && *final(decoder) == after,
    ensures
        ({
            let machine = before@.machine;
            let body = input@.skip(reader::bom_len(before@.started, input@) as int);
            let records = parsing::records_in(machine, open, body, 0).0;
            let n = after.num_rows - before.num_rows;
            exists|end: int|
                {
                    &&& 0 <= end <= body.len()
                    &&& after@.machine == walked(machine, #[trigger] body.take(end))
                    &&& parsing::records_in(machine, open, body.take(end), 0) == if error
                        is IncorrectFields {
                        (records.take(n + 1), Record::empty())
                    } else {
                        (records.take(n), after@.current)
                    }
                }
        }),
{
    let layout = before.layout();
    let state = before@;
    let body = input@.skip(reader::bom_len(state.started, input@) as int);
    let slots = state.current.ends.len() + to_read * layout.num_columns;
    let begun = model::begun(state);
    assert(0 <= to_read * layout.num_columns) by (nonlinear_arith)
        requires
            0 <= layout.num_columns,
    ;
    lemma_run_fails(layout, begun, open, slots as int, body, to_read as nat, 0, 0);
    assert(before@.rows.len() == before.num_rows && after@.rows.len() == after.num_rows);
    let n = after.num_rows - before.num_rows;
    let end = choose|end: int| #[trigger]
        fails_there(state.machine, open, body, 0, error, after@, n, end);
    assert(body.subrange(0, end) =~= body.take(end));
}

/// A call that is asked for no rows does nothing.
pub proof fn lemma_decode_of_no_rows(
    before: RecordDecoder,
    after: RecordDecoder,
    input: &[u8],
    r: Result<(usize, usize), CsvError>,
)
    requires
        exists|decoder: &mut RecordDecoder| #[trigger]
            call_ensures(RecordDecoder::decode, (decoder, input, 0usize), r) && *decoder == before
                && *final(decoder) == after,
    ensures
        r == Ok::<(usize, usize), CsvError>((0, 0)),
        after@ == before@,
        after.layout() == before.layout(),
{
}

proof fn lemma_records_shift(machine: int, open: Record, a: Seq<u8>, b: Seq<u8>, pos: int)
    requires
        0 <= pos <= b.len(),
    ensures
        parsing::records_in(machine, open, a + b, a.len() + pos) == parsing::records_in(
            machine,
            open,
            b,
            pos,
        ),
    decreases b.len() - pos,
{
    if pos < b.len() {
        let step = reader::csv_step(machine, b[pos]);
        let longer = parsing::extended(open, step, b[pos]);
        assert((a + b)[a.len() + pos] == b[pos]);
        if step.boundary is Record {
            lemma_records_shift(step.next, Record::empty(), a, b, pos + 1);
        } else {
            lemma_records_shift(step.next, longer, a, b, pos + 1);
        }
    }
}

proof fn lemma_records_from(machine: int, open: Record, a: Seq<u8>, b: Seq<u8>, pos: int)
    requires
        0 <= pos <= a.len(),
    ensures
        ({
            let (records, last) = parsing::records_in(machine, open, a, pos);
            let (more, end) = parsing::records_in(
                walked(machine, a.subrange(pos, a.len() as int)),
                last,
                b,
                0,
            );
            parsing::records_in(machine, open, a + b, pos) == (records + more, end)
        }),
    decreases a.len() - pos,
{
    let (records, last) = parsing::records_in(machine, open, a, pos);
    let after = walked(machine, a.subrange(pos, a.len() as int));
    let (more, end) = parsing::records_in(after, last, b, 0);
    if pos < a.len() {
        let step = reader::csv_step(machine, a[pos]);
        let longer = parsing::extended(open, step, a[pos]);
        assert((a + b)[pos] == a[pos]);
        lemma_walked(machine, a, pos, a.len() as int);
        if step.boundary is Record {
            lemma_records_from(step.next, Record::empty(), a, b, pos + 1);
            let rest = parsing::records_in(step.next, Record::empty(), a, pos + 1).0;
            assert(seq![longer] + (rest + more) =~= records + more);
        } else {
            lemma_records_from(step.next, longer, a, b, pos + 1);
        }
    } else {
        assert(a.subrange(pos, pos) =~= Seq::empty());
        assert(walked(machine, Seq::empty()) == machine);
        lemma_records_shift(machine, open, a, b, 0);
        assert(records + more =~= more);
    }
}

/// The records in two pieces of input are those in the first, followed by those in
/// the second, where the record that the first one leaves open goes on.
pub proof fn lemma_records_of_pieces(machine: int, open: Record, a: Seq<u8>, b: Seq<u8>)
    ensures
        ({
            let (records, last) = parsing::records_in(machine, open, a, 0);
            let (more, end) = parsing::records_in(walked(machine, a), last, b, 0);
            parsing::records_in(machine, open, a + b, 0) == (records + more, end)
        }),
{
    lemma_records_from(machine, open, a, b, 0);
    assert(a.subrange(0, a.len() as int) =~= a);
}

proof fn lemma_scan_walks(machine: int, position: nat, bytes: Seq<u8>)
    ensures
        reader::scan(machine, position, bytes).machine == walked(machine, bytes),
    decreases bytes.len(),
{
    if bytes.len() > 0 {
        lemma_scan_walks(machine, position, bytes.drop_last());
        assert(walked(machine, bytes) == reader::csv_step(
            walked(machine, bytes.drop_last()),
            bytes.last(),
        ).next);
    }
}

/// A record is what the CSV reader writes up to the first byte at which it says that
/// a record is complete. Up to there the record is open.
pub proof fn lemma_record_is_what_the_reader_writes(machine: int, open: Record, input: Seq<u8>)
    requires
        forall|n: int|
            0 < n < input.len() ==> !reader::scan(
                machine,
                open.bytes.len(),
                #[trigger] input.take(n),
            ).record,
    ensures
        ({
            let walk = reader::scan(machine, open.bytes.len(), input);
            let record = Record { bytes: open.bytes + walk.out, ends: open.ends + walk.ends };
            parsing::records_in(machine, open, input, 0) == if walk.record {
                (seq![record], Record::empty())
            } else {
                (Seq::empty(), record)
            }
        }),
    decreases input.len(),
{
    let walk = reader::scan(machine, open.bytes.len(), input);
    if input.len() == 0 {
        assert(open.bytes + walk.out =~= open.bytes);
        assert(open.ends + walk.ends =~= open.ends);
    } else {
        let n = input.len() - 1;
        let head = input.drop_last();
        let byte = seq![input.last()];
        assert(head =~= input.take(n));
        assert forall|k: int| 0 < k < head.len() implies !reader::scan(
            machine,
            open.bytes.len(),
            #[trigger] head.take(k),
        ).record by {
            assert(head.take(k) =~= input.take(k));
        }
        lemma_record_is_what_the_reader_writes(machine, open, head);
        lemma_scan_walks(machine, open.bytes.len(), head);
        assert(!reader::scan(machine, open.bytes.len(), head).record);
        lemma_records_of_pieces(machine, open, head, byte);
        assert(head + byte =~= input);
        let shorter = reader::scan(machine, open.bytes.len(), head);
        let before = Record { bytes: open.bytes + shorter.out, ends: open.ends + shorter.ends };
        let step = reader::csv_step(shorter.machine, input.last());
        let longer = parsing::extended(before, step, input.last());
        assert(longer.bytes =~= open.bytes + walk.out);
        assert(longer.ends =~= open.ends + walk.ends);
        let none = Seq::<Record>::empty();
        assert(parsing::records_in(step.next, longer, byte, 1) == (none, longer));
        assert(parsing::records_in(step.next, Record::empty(), byte, 1) == (none, Record::empty()));
        assert(seq![longer] + none =~= seq![longer]);
        assert(none + seq![longer] =~= seq![longer]);
        assert(none + none =~= none);
    }
}

/// Empty input is the end of all data. If the CSV reader has a record open then, its
/// last field ends, and it makes a row or is refused like any other. Otherwise nothing
/// is added.
pub proof fn lemma_decode_at_the_end_of_data(
    before: RecordDecoder,
    after: RecordDecoder,
    input: &[u8],
    to_read: usize,
    r: Result<(usize, usize), CsvError>,
)
    requires
        before.wf(),
        before.has_room(0, to_read as nat),
        before.num_columns > 0,
        !before.skipping,
        input@.len() == 0,
        to_read > 0,
        exists|decoder: &mut RecordDecoder| #[trigger]
            call_ensures(RecordDecoder::decode, (decoder, input, to_read), r) && *decoder == before
                && *final(decoder) == after,
    ensures
        ({
            let columns = before.num_columns as int;
            let fields = before.current_field + 1;
            let current = before@.current;
            let record = Record { ends: current.ends.push(current.bytes.len()), ..current };
            if !reader::csv_finish(before@.machine).record {
                &&& r == Ok::<(usize, usize), CsvError>((0, 0))
                &&& after@.rows == before@.rows
                &&& after@.current == before@.current
            } else if fields == columns || fields < columns && before.truncated_rows || fields
                > columns && before.ignore_extra_columns {
                &&& r == Ok::<(usize, usize), CsvError>((1, 0))
                &&& after.num_rows == before.num_rows + 1
                &&& after@.current == Record::empty()
                &&& forall|column: int|
                    0 <= column < columns ==> (#[trigger] after@.rows[before.num_rows as int].field(
                        column,
                    )) == if column < fields {
                        record.field(column)
                    } else {
                        Seq::empty()
                    }
            } else {
                &&& r matches Err(CsvError::IncorrectFields { line, expected, got }) && line
                    == before.line_number && expected == columns && got == fields
                &&& after@.rows == before@.rows
            }
        }),
{
    let current = before@.current;
    let record = Record { ends: current.ends.push(current.bytes.len()), ..current };
    assert(parsing::tracks(before.layout(), before@, current));
    assert(input@.skip(0).len() == 0);
    lemma_decode_makes_rows_of_records(before, after, current, input, to_read, r);
    assert(before@.rows.len() == before.num_rows && after@.rows.len() == after.num_rows);
    let records = parsing::records_of_call(
        before@.started,
        before@.machine,
        current,
        input@,
    ).0;
    let n = after.num_rows - before.num_rows;
    assert(1 * before.num_columns == before.num_columns) by (nonlinear_arith);
    assert((to_read - 0) * before.num_columns >= before.num_columns) by (nonlinear_arith)
        requires
            to_read > 0,
    ;
    if reader::csv_finish(before@.machine).record {
        assert(records =~= seq![record]);
        assert(records[0] == record);
        assert(current.ends.len() == before.current_field);
        if n == 0 {
            assert(after@.rows =~= before@.rows);
        }
    } else {
        assert(records =~= Seq::empty());
        assert(after@.rows =~= before@.rows);
    }
}

/// The decoder makes such rows, but has not made any, and is on the first line.
/// Without columns it ignores no extra ones.
pub open spec fn holds_nothing(
    decoder: RecordDecoder,
    columns: usize,
    truncated_rows: bool,
    ignore_extra_columns: bool,
) -> bool {
    &&& decoder.num_columns == columns
    &&& decoder.truncated_rows == truncated_rows
    &&& decoder.ignore_extra_columns == (ignore_extra_columns && columns > 0)
    &&& decoder.num_rows == 0
    &&& decoder@.rows.len() == 0
    &&& decoder@.current == Record::empty()
    &&& !decoder.skipping
    &&& decoder.line_number == 1
    &&& decoder.truncated_row_count == 0
    &&& decoder.extra_column_row_count == 0
}

/// A new decoder holds nothing, and reads with the reader that it was given.
pub proof fn lemma_new_decoder(
    given: csv_core::Reader,
    columns: usize,
    truncated_rows: bool,
    ignore_extra_columns: bool,
    decoder: RecordDecoder,
)
    requires
        call_ensures(
            RecordDecoder::new,
            (given, columns, truncated_rows, ignore_extra_columns),
            decoder,
        ),
    ensures
        decoder.delimiter == given,
        holds_nothing(decoder, columns, truncated_rows, ignore_extra_columns),
        reader::reader_view(given).table_driven && reader::reader_view(given).position == 0
            ==> decoder.wf(),
{
    assert(decoder@.rows.len() == decoder.num_rows);
    assert(decoder@.current.ends.len() == decoder.current_field);
    assert(decoder@.line == decoder.line_number);
    assert(decoder.layout().num_columns == columns);
}

/// There is no record without fields.
pub proof fn lemma_records_have_fields(machine: int, open: Record, input: Seq<u8>, pos: int)
    ensures
        ({
            let records = parsing::records_in(machine, open, input, pos).0;
            forall|i: int| 0 <= i < records.len() ==> (#[trigger] records[i]).ends.len() > 0
        }),
    decreases input.len() - pos,
{
    let records = parsing::records_in(machine, open, input, pos).0;
    if pos < input.len() {
        let step = reader::csv_step(machine, input[pos]);
        let longer = parsing::extended(open, step, input[pos]);
        if step.boundary is Record {
            lemma_records_have_fields(step.next, Record::empty(), input, pos + 1);
            let rest = parsing::records_in(step.next, Record::empty(), input, pos + 1).0;
            assert(records == seq![longer] + rest);
            assert forall|i: int| 0 <= i < records.len() implies (
            #[trigger] records[i]).ends.len() > 0 by {
                if i > 0 {
                    assert(records[i] == rest[i - 1]);
                }
            }
        } else {
            lemma_records_have_fields(step.next, longer, input, pos + 1);
            assert(records == parsing::records_in(step.next, longer, input, pos + 1).0);
        }
    } else {
        assert(records.len() == 0);
    }
}

/// A decoder that is given no reader reads with one that has read nothing, and goes
/// by the default table, or by one for the delimiter. It is as new otherwise.
pub proof fn lemma_new_decoder_with_its_own_reader(
    delimiter: u8,
    columns: usize,
    truncated_rows: bool,
    ignore_extra_columns: bool,
    default: RecordDecoder,
    delimited: RecordDecoder,
)
    requires
        call_ensures(
            RecordDecoder::with_default_reader,
            (columns, truncated_rows, ignore_extra_columns),
            default,
        ),
        call_ensures(
            RecordDecoder::with_delimiter,
            (delimiter, columns, truncated_rows, ignore_extra_columns),
            delimited,
        ),
    ensures
        default.wf() && delimited.wf(),
        default@.machine == reader::default_machine(),
        delimited@.machine == reader::delimited_machine(delimiter),
        !default@.started && !delimited@.started,
        holds_nothing(default, columns, truncated_rows, ignore_extra_columns),
        holds_nothing(delimited, columns, truncated_rows, ignore_extra_columns),
{
    assert(default@.rows.len() == default.num_rows);
    assert(delimited@.rows.len() == delimited.num_rows);
    assert(default@.line == default.line_number && delimited@.line == delimited.line_number);
    assert(default.layout().num_columns == columns && delimited.layout().num_columns == columns);
}

/// What can be asked of a decoder that is in order: to decode, as far as the machine's
/// integers go, and to be cleared. With columns it can be flushed, once it has been
/// asked to decode, and in the middle of a record at any time.
pub proof fn lemma_calls_are_accepted(decoder: RecordDecoder, input: &[u8], to_read: usize)
    requires
        decoder.wf(),
    ensures
        forall|d: &mut RecordDecoder|
            *d == decoder && (to_read == 0 || decoder.has_room(input@.len(), to_read as nat))
                ==> #[trigger] call_requires(RecordDecoder::decode, (d, input, to_read)),
        forall|d: &mut RecordDecoder|
            *d == decoder && decoder.offsets_len <= decoder.offsets@.len()
                ==> #[trigger] call_requires(RecordDecoder::clear, (d,)),
        forall|d: &mut RecordDecoder|
            *d == decoder && decoder.num_columns > 0 && decoder.offsets_len
                <= decoder.offsets@.len() ==> #[trigger] call_requires(
                RecordDecoder::flush,
                (d,),
            ),
        forall|d: &mut RecordDecoder|
            *d == decoder && decoder.current_field > 0 ==> #[trigger] call_requires(
                RecordDecoder::flush,
                (d,),
            ),
{
}

} // verus!
