//! What holds of every sequence of calls to a record decoder.

use crate::csv::flush;
use crate::csv::model;
use crate::csv::model::{DecoderState, Layout, Outcome, Record};
use crate::csv::reader;
use crate::csv::reader::ReaderView;
use crate::csv::records::RecordDecoder;
use vstd::prelude::*;

verus! {

/// The number of rows that lost fields, without the record being read.
pub open spec fn settled(state: DecoderState) -> int {
    if state.skipping {
        state.extra - 1
    } else {
        state.extra as int
    }
}

/// A decoding call only adds rows, and says how many; it stops early only when
/// it has read enough rows. Each row that it adds is on a line of its own, and
/// is counted as padded or as shortened at most once, and only where the layout allows that.
pub proof fn lemma_decode_counts(layout: Layout, state: DecoderState, input: Seq<u8>, to_read: nat)
    ensures
        model::decode(layout, state, input, to_read) matches Outcome::Done {
            state: after,
            read,
            consumed,
        } ==> {
            &&& read <= to_read
            &&& consumed <= input.len()
            &&& read < to_read ==> consumed == input.len()
            &&& after.rows.len() == state.rows.len() + read
            &&& after.rows.take(state.rows.len() as int) == state.rows
            &&& after.line == state.line + read
            &&& state.truncated <= after.truncated <= state.truncated + read
            &&& settled(state) <= settled(after) <= settled(state) + read
            &&& !layout.truncated_rows ==> after.truncated == state.truncated
            &&& !layout.ignore_extra_columns ==> after.extra == state.extra
        },
{
    let bom = reader::bom_len(state.started, input);
    let body = input.skip(bom as int);
    let slots = state.current.ends.len() + to_read * layout.num_columns;
    if to_read == 0 {
        assert(state.rows.take(state.rows.len() as int) =~= state.rows);
    } else if body.len() == 0 {
        assert forall|row: Record| #[trigger]
            state.rows.push(row).take(state.rows.len() as int) == state.rows by {
            assert(state.rows.push(row).take(state.rows.len() as int) =~= state.rows);
        }
        assert(state.rows.take(state.rows.len() as int) =~= state.rows);
    } else {
        lemma_run_counts(layout, model::begun(state), slots as int, body, to_read, 0, 0);
    }
}

proof fn lemma_run_counts(
    layout: Layout,
    state: DecoderState,
    slots: int,
    input: Seq<u8>,
    want: nat,
    read: nat,
    pos: int,
)
    requires
        0 <= pos <= input.len(),
    ensures
        model::run(layout, state, slots, input, want, read, pos) matches Outcome::Done {
            state: after,
            read: total,
            consumed,
        } ==> {
            let n = total - read;
            &&& 0 <= n <= want
            &&& pos <= consumed <= input.len()
            &&& n < want ==> consumed == input.len()
            &&& after.rows.len() == state.rows.len() + n
            &&& after.rows.take(state.rows.len() as int) == state.rows
            &&& after.line == state.line + n
            &&& state.truncated <= after.truncated <= state.truncated + n
            &&& settled(state) <= settled(after) <= settled(state) + n
            &&& !layout.truncated_rows ==> after.truncated == state.truncated
            &&& !layout.ignore_extra_columns ==> after.extra == state.extra
        },
    decreases input.len() - pos,
{
    if pos >= input.len() || want == 0 {
        assert(state.rows.take(state.rows.len() as int) =~= state.rows);
    } else if model::is_full(state, slots) && !layout.ignore_extra_columns {
    } else {
        let ready = if model::is_full(state, slots) {
            model::start_skipping(layout, state)
        } else {
            state
        };
        let next = model::take_byte(ready, input[pos]);
        if reader::csv_step(state.machine, input[pos]).boundary is Record {
            match model::end_record(layout, next) {
                Ok(ended) => {
                    let fewer = (want - 1) as nat;
                    let left = slots - layout.num_columns;
                    lemma_run_counts(layout, ended, left, input, fewer, read + 1, pos + 1);
                    let outcome = model::run(
                        layout,
                        ended,
                        left,
                        input,
                        fewer,
                        read + 1,
                        pos + 1,
                    );
                    if let Outcome::Done { state: after, .. } = outcome {
                        let k = state.rows.len() as int;
                        assert(after.rows.take(k + 1).take(k) =~= after.rows.take(k));
                        assert(ended.rows.take(k) =~= state.rows);
                    }
                },
                Err(error) => {},
            }
        } else {
            lemma_run_counts(layout, next, slots, input, want, read, pos + 1);
        }
    }
}

/// An outcome, with the bytes and the rows of an earlier call added.
pub open spec fn continued(consumed: nat, read: nat, outcome: Outcome) -> Outcome {
    match outcome {
        Outcome::Done { state, read: more, consumed: rest } => Outcome::Done {
            state,
            read: read + more,
            consumed: consumed + rest,
        },
        Outcome::Failed { error, state } => Outcome::Failed { error, state },
    }
}

/// What a run does with bytes does not depend on the bytes behind them.
proof fn lemma_run_append(
    layout: Layout,
    state: DecoderState,
    slots: int,
    a: Seq<u8>,
    b: Seq<u8>,
    want: nat,
    read: nat,
    pos: int,
)
    requires
        0 <= pos <= a.len(),
    ensures
        ({
            let whole = model::run(layout, state, slots, a + b, want, read, pos);
            match model::run(layout, state, slots, a, want, read, pos) {
                Outcome::Failed { error, state } => whole == (Outcome::Failed { error, state }),
                Outcome::Done { state: after, read: total, consumed } => {
                    let n = (total - read) as nat;
                    &&& 0 <= total - read <= want
                    &&& total - read == want ==> whole == (Outcome::Done {
                        state: after,
                        read: total,
                        consumed,
                    })
                    &&& total - read < want ==> whole == model::run(
                        layout,
                        after,
                        slots - n * layout.num_columns,
                        a + b,
                        (want - n) as nat,
                        total,
                        a.len() as int,
                    )
                },
            }
        }),
    decreases a.len() - pos,
{
    assert(0 * layout.num_columns == 0) by (nonlinear_arith);
    if pos < a.len() && want > 0 && !(model::is_full(state, slots)
        && !layout.ignore_extra_columns) {
        let ready = if model::is_full(state, slots) {
            model::start_skipping(layout, state)
        } else {
            state
        };
        assert((a + b)[pos] == a[pos]);
        let next = model::take_byte(ready, a[pos]);
        if reader::csv_step(state.machine, a[pos]).boundary is Record {
            if let Ok(ended) = model::end_record(layout, next) {
                let left = slots - layout.num_columns;
                let fewer = (want - 1) as nat;
                lemma_run_append(layout, ended, left, a, b, fewer, read + 1, pos + 1);
                let rest = model::run(layout, ended, left, a, fewer, read + 1, pos + 1);
                if let Outcome::Done { read: total, .. } = rest {
                    let n = (total - read) as nat;
                    assert(n * layout.num_columns == (n - 1) * layout.num_columns
                        + layout.num_columns) by (nonlinear_arith);
                }
            }
        } else {
            lemma_run_append(layout, next, slots, a, b, want, read, pos + 1);
        }
    }
}

/// Bytes and rows in front of a run only add to its counts.
proof fn lemma_run_shift(
    layout: Layout,
    state: DecoderState,
    slots: int,
    a: Seq<u8>,
    b: Seq<u8>,
    want: nat,
    earlier: nat,
    read: nat,
    pos: int,
)
    requires
        0 <= pos <= b.len(),
    ensures
        model::run(layout, state, slots, a + b, want, earlier + read, a.len() + pos) == continued(
            a.len(),
            earlier,
            model::run(layout, state, slots, b, want, read, pos),
        ),
    decreases b.len() - pos,
{
    if pos < b.len() && want > 0 && !(model::is_full(state, slots)
        && !layout.ignore_extra_columns) {
        let ready = if model::is_full(state, slots) {
            model::start_skipping(layout, state)
        } else {
            state
        };
        assert((a + b)[a.len() + pos] == b[pos]);
        let next = model::take_byte(ready, b[pos]);
        if reader::csv_step(state.machine, b[pos]).boundary is Record {
            if let Ok(ended) = model::end_record(layout, next) {
                let left = slots - layout.num_columns;
                let fewer = (want - 1) as nat;
                lemma_run_shift(layout, ended, left, a, b, fewer, earlier, read + 1, pos + 1);
            }
        } else {
            lemma_run_shift(layout, next, slots, a, b, want, earlier, read, pos + 1);
        }
    }
}

/// More space for a record changes nothing, where it was not the lack of space
/// that ended a run.
proof fn lemma_run_space(
    layout: Layout,
    state: DecoderState,
    slots: int,
    more: int,
    input: Seq<u8>,
    want: nat,
    read: nat,
    pos: int,
)
    requires
        slots <= more,
        !layout.ignore_extra_columns,
        !lacks_space(model::run(layout, state, slots, input, want, read, pos)),
    ensures
        model::run(layout, state, slots, input, want, read, pos) == model::run(
            layout,
            state,
            more,
            input,
            want,
            read,
            pos,
        ),
    decreases input.len() - pos,
{
    if pos < input.len() && want > 0 && !model::is_full(state, slots) {
        let next = model::take_byte(state, input[pos]);
        let n = layout.num_columns;
        if reader::csv_step(state.machine, input[pos]).boundary is Record {
            if let Ok(ended) = model::end_record(layout, next) {
                let fewer = (want - 1) as nat;
                lemma_run_space(
                    layout,
                    ended,
                    slots - n,
                    more - n,
                    input,
                    fewer,
                    read + 1,
                    pos + 1,
                );
            }
        } else {
            lemma_run_space(layout, next, slots, more, input, want, read, pos + 1);
        }
    }
}

/// A record had more fields than there was space for.
pub open spec fn lacks_space(outcome: Outcome) -> bool {
    outcome matches Outcome::Failed { error, .. } && error is TooManyFields
}

/// What two calls come to, the second of which gets the bytes behind those of
/// the first.
pub open spec fn decode_twice(
    layout: Layout,
    state: DecoderState,
    a: Seq<u8>,
    b: Seq<u8>,
    to_read: nat,
) -> Outcome {
    match model::decode(layout, state, a, to_read) {
        Outcome::Done { state: after, read, consumed } => if read == to_read {
            Outcome::Done { state: after, read, consumed }
        } else {
            continued(a.len(), read, model::decode(layout, after, b, (to_read - read) as nat))
        },
        Outcome::Failed { error, state: after } => Outcome::Failed { error, state: after },
    }
}

/// One call is as good as two, up to the space that a record has.
proof fn lemma_decode_append(
    layout: Layout,
    state: DecoderState,
    a: Seq<u8>,
    b: Seq<u8>,
    to_read: nat,
)
    requires
        to_read > 0,
        reader::bom_len(state.started, a) == reader::bom_len(state.started, a + b) < a.len(),
        b.len() > 0,
    ensures
        ({
            let whole = model::decode(layout, state, a + b, to_read);
            match model::decode(layout, state, a, to_read) {
                Outcome::Done { state: after, read, consumed } if read < to_read => {
                    let want = (to_read - read) as nat;
                    let tight = state.current.ends.len() + want * layout.num_columns;
                    let roomy = after.current.ends.len() + want * layout.num_columns;
                    let left = model::run(layout, after, tight as int, b, want, 0, 0);
                    &&& whole == continued(a.len(), read, left)
                    &&& model::decode(layout, after, b, want) == model::run(
                        layout,
                        after,
                        roomy as int,
                        b,
                        want,
                        0,
                        0,
                    )
                },
                _ => whole == decode_twice(layout, state, a, b, to_read),
            }
        }),
{
    let bom = reader::bom_len(state.started, a);
    let body = a.skip(bom as int);
    let slots = state.current.ends.len() + to_read * layout.num_columns;
    let start = model::begun(state);
    assert((a + b).skip(bom as int) =~= body + b);
    lemma_run_append(layout, start, slots as int, body, b, to_read, 0, 0);
    let first = model::run(layout, start, slots as int, body, to_read, 0, 0);
    if let Outcome::Done { state: after, read, consumed } = first {
        lemma_run_counts(layout, start, slots as int, body, to_read, 0, 0);
        lemma_run_started(layout, start, slots as int, body, to_read, 0, 0);
        if read < to_read {
            let want = (to_read - read) as nat;
            let tight = slots - read * layout.num_columns;
            assert(tight == state.current.ends.len() + want * layout.num_columns)
                by (nonlinear_arith)
                requires
                    slots == state.current.ends.len() + to_read * layout.num_columns,
                    tight == slots - read * layout.num_columns,
                    want == to_read - read,
            ;
            lemma_run_shift(layout, after, tight, body, b, want, read, 0, 0);
            assert(b.skip(0) =~= b);
            assert(model::begun(after) == after);
        }
    }
}

/// Input may be decoded in pieces. If a call ends for want of bytes, a call on
/// the bytes that follow goes on as one call on all of them would have.
///
/// The pieces must not divide a byte order mark, nor is the first of them such a
/// mark and nothing else. In how much space a record has, one call and two may
/// differ: what ends for lack of space is left out.
pub proof fn lemma_decode_in_pieces(
    layout: Layout,
    state: DecoderState,
    a: Seq<u8>,
    b: Seq<u8>,
    to_read: nat,
)
    requires
        !layout.ignore_extra_columns,
        to_read > 0,
        reader::bom_len(state.started, a) == reader::bom_len(state.started, a + b) < a.len(),
        b.len() > 0,
        !lacks_space(model::decode(layout, state, a + b, to_read)),
        state.current.ends.len() > 0 ==> !lacks_space(decode_twice(layout, state, a, b, to_read)),
    ensures
        model::decode(layout, state, a + b, to_read) == decode_twice(layout, state, a, b, to_read),
{
    lemma_decode_append(layout, state, a, b, to_read);
    if let Outcome::Done { state: after, read, .. } = model::decode(layout, state, a, to_read) {
        if read < to_read {
            let want = (to_read - read) as nat;
            let tight = state.current.ends.len() + want * layout.num_columns;
            let roomy = after.current.ends.len() + want * layout.num_columns;
            if tight <= roomy {
                lemma_run_space(layout, after, tight as int, roomy as int, b, want, 0, 0);
            } else {
                lemma_run_space(layout, after, roomy as int, tight as int, b, want, 0, 0);
            }
        }
    }
}

/// A record that has all the fields of a row and goes on is one that loses
/// fields, whether they have been dropped yet or not.
pub open spec fn trimmed(layout: Layout, state: DecoderState) -> DecoderState {
    if !state.skipping && state.current.ends.len() >= layout.num_columns {
        model::start_skipping(layout, state)
    } else {
        state
    }
}

/// An outcome, in which fields in excess have been dropped.
pub open spec fn trimmed_outcome(layout: Layout, outcome: Outcome) -> Outcome {
    match outcome {
        Outcome::Done { state, read, consumed } => Outcome::Done {
            state: trimmed(layout, state),
            read,
            consumed,
        },
        Outcome::Failed { error, state } => Outcome::Failed {
            error,
            state: trimmed(layout, state),
        },
    }
}

/// The first fields of a record stay the same when it goes on.
pub(crate) proof fn lemma_cut_longer(record: Record, longer: Record, n: nat)
    requires
        0 < n <= record.ends.len() <= longer.ends.len(),
        record.valid(),
        longer.ends.take(record.ends.len() as int) == record.ends,
        record.bytes.len() <= longer.bytes.len(),
        longer.bytes.take(record.bytes.len() as int) == record.bytes,
    ensures
        record.cut(n) == longer.cut(n),
{
    assert(record.ends[n - 1] <= record.bytes.len());
    assert(longer.ends.take(record.ends.len() as int)[n - 1] == longer.ends[n - 1]);
    assert(record.cut(n).ends =~= longer.ends.take(record.ends.len() as int).take(n as int));
    assert(record.cut(n).ends =~= longer.cut(n).ends);
    let end = record.ends[n - 1] as int;
    assert(longer.bytes.take(record.bytes.len() as int).take(end) =~= longer.bytes.take(end));
}

/// A byte keeps the record being read in order.
pub(crate) proof fn lemma_byte_valid(state: DecoderState, byte: u8)
    requires
        state.current.valid(),
    ensures
        model::take_byte(state, byte).current.valid(),
{
    let before = state.current;
    let after = model::take_byte(state, byte).current;
    assert forall|i: int, j: int| 0 <= i <= j < after.ends.len() implies after.ends[i]
        <= #[trigger] after.ends[j] && (#[trigger] after.ends[i]) <= after.bytes.len() by {
        if i < before.ends.len() {
            assert(before.ends[i] <= before.bytes.len());
            if j < before.ends.len() {
                assert(before.ends[i] <= before.ends[j]);
            }
        }
    }
}

/// Whether fields in excess are dropped at once, or when the record ends, does
/// not show in the rows. Nor does the space that a record has.
proof fn lemma_run_trimmed(
    layout: Layout,
    state: DecoderState,
    slots: int,
    other: int,
    input: Seq<u8>,
    want: nat,
    read: nat,
    pos: int,
)
    requires
        layout.ignore_extra_columns,
        layout.num_columns > 0,
        state.current.valid(),
        want * layout.num_columns <= slots,
        want * layout.num_columns <= other,
    ensures
        trimmed_outcome(layout, model::run(layout, state, slots, input, want, read, pos))
            == trimmed_outcome(
            layout,
            model::run(layout, trimmed(layout, state), other, input, want, read, pos),
        ),
    decreases input.len() - pos,
{
    let n = layout.num_columns;
    let trim = trimmed(layout, state);
    if pos < input.len() && want > 0 {
        assert(n <= want * n && (want - 1) * n == want * n - n) by (nonlinear_arith)
            requires
                want > 0,
        ;
        let byte = input[pos];
        let fewer = (want - 1) as nat;
        let ready = if model::is_full(state, slots) {
            model::start_skipping(layout, state)
        } else {
            state
        };
        let next = model::take_byte(ready, byte);
        let next_trim = model::take_byte(trim, byte);
        assert(!model::is_full(trim, other));
        lemma_byte_valid(state, byte);
        let taken = model::take_byte(state, byte);
        let record = reader::csv_step(state.machine, byte).boundary is Record;
        if state.skipping || state.current.ends.len() < n {
            assert(ready == state && trim == state);
            if record {
                if let Ok(ended) = model::end_record(layout, next) {
                    let (left, left_other) = (slots - n, other - n);
                    lemma_run_trimmed(
                        layout,
                        ended,
                        left,
                        left_other,
                        input,
                        fewer,
                        read + 1,
                        pos + 1,
                    );
                    assert(trimmed(layout, ended) == ended);
                }
            } else {
                lemma_run_trimmed(layout, next, slots, slots, input, want, read, pos + 1);
                lemma_run_trimmed(layout, next, other, slots, input, want, read, pos + 1);
            }
        } else {
            assert(taken.current.ends.take(state.current.ends.len() as int)
                =~= state.current.ends);
            assert(taken.current.bytes.take(state.current.bytes.len() as int)
                =~= state.current.bytes);
            lemma_cut_longer(state.current, taken.current, n);
            if record {
                assert(model::end_record(layout, next) == model::end_record(layout, next_trim));
                if let Ok(ended) = model::end_record(layout, next) {
                    let (left, left_other) = (slots - n, other - n);
                    lemma_run_trimmed(
                        layout,
                        ended,
                        left,
                        left_other,
                        input,
                        fewer,
                        read + 1,
                        pos + 1,
                    );
                    assert(trimmed(layout, ended) == ended);
                }
            } else {
                assert(trimmed(layout, next) == next_trim);
                lemma_cut_valid(state.current, n);
                lemma_run_trimmed(layout, next, slots, other, input, want, read, pos + 1);
            }
        }
    } else {
        assert(trimmed(layout, trim) == trim);
    }
}

/// What is cut is in order.
pub(crate) proof fn lemma_cut_valid(record: Record, n: nat)
    requires
        0 < n <= record.ends.len(),
        record.valid(),
    ensures
        record.cut(n).valid(),
{
    let cut = record.cut(n);
    assert forall|i: int, j: int| 0 <= i <= j < cut.ends.len() implies cut.ends[i]
        <= #[trigger] cut.ends[j] && (#[trigger] cut.ends[i]) <= cut.bytes.len() by {
        assert(record.ends[i] <= record.ends[j]);
        assert(record.ends[i] <= record.ends[n - 1]);
        assert(record.ends[n - 1] <= record.bytes.len());
    }
}

/// A run leaves the reader started.
proof fn lemma_run_started(
    layout: Layout,
    state: DecoderState,
    slots: int,
    input: Seq<u8>,
    want: nat,
    read: nat,
    pos: int,
)
    requires
        state.started,
    ensures
        model::run(layout, state, slots, input, want, read, pos) matches Outcome::Done {
            state: after,
            ..
        } ==> after.started,
    decreases input.len() - pos,
{
    if pos < input.len() && want > 0 && !(model::is_full(state, slots)
        && !layout.ignore_extra_columns) {
        let ready = if model::is_full(state, slots) {
            model::start_skipping(layout, state)
        } else {
            state
        };
        let next = model::take_byte(ready, input[pos]);
        if reader::csv_step(state.machine, input[pos]).boundary is Record {
            if let Ok(ended) = model::end_record(layout, next) {
                let left = slots - layout.num_columns;
                let fewer = (want - 1) as nat;
                lemma_run_started(layout, ended, left, input, fewer, read + 1, pos + 1);
            }
        } else {
            lemma_run_started(layout, next, slots, input, want, read, pos + 1);
        }
    }
}

/// A run keeps the record being read in order.
proof fn lemma_run_valid(
    layout: Layout,
    state: DecoderState,
    slots: int,
    input: Seq<u8>,
    want: nat,
    read: nat,
    pos: int,
)
    requires
        layout.ignore_extra_columns,
        layout.num_columns > 0,
        state.current.valid(),
        want * layout.num_columns <= slots,
    ensures
        model::run(layout, state, slots, input, want, read, pos) matches Outcome::Done {
            state: after,
            ..
        } ==> after.current.valid(),
    decreases input.len() - pos,
{
    if pos < input.len() && want > 0 {
        let n = layout.num_columns;
        assert(n <= want * n && (want - 1) * n == want * n - n) by (nonlinear_arith)
            requires
                want > 0,
        ;
        let ready = if model::is_full(state, slots) {
            lemma_cut_valid(state.current, n);
            model::start_skipping(layout, state)
        } else {
            state
        };
        let next = model::take_byte(ready, input[pos]);
        lemma_byte_valid(ready, input[pos]);
        if reader::csv_step(state.machine, input[pos]).boundary is Record {
            if let Ok(ended) = model::end_record(layout, next) {
                let fewer = (want - 1) as nat;
                lemma_run_valid(layout, ended, slots - n, input, fewer, read + 1, pos + 1);
            }
        } else {
            lemma_run_valid(layout, next, slots, input, want, read, pos + 1);
        }
    }
}

/// Input may be decoded in pieces where fields in excess are dropped: one call
/// and two give the same rows, counts and errors.
///
/// They may differ in whether the fields in excess of a record that goes on have
/// been dropped yet; [`lemma_decode_trimmed`] says that nothing depends on it.
/// The pieces must not divide a byte order mark, nor is the first of them such a
/// mark and nothing else.
pub proof fn lemma_decode_in_pieces_ignoring_extra(
    layout: Layout,
    state: DecoderState,
    a: Seq<u8>,
    b: Seq<u8>,
    to_read: nat,
)
    requires
        layout.ignore_extra_columns,
        layout.num_columns > 0,
        state.current.valid(),
        to_read > 0,
        reader::bom_len(state.started, a) == reader::bom_len(state.started, a + b) < a.len(),
        b.len() > 0,
    ensures
        trimmed_outcome(layout, model::decode(layout, state, a + b, to_read)) == trimmed_outcome(
            layout,
            decode_twice(layout, state, a, b, to_read),
        ),
{
    lemma_decode_append(layout, state, a, b, to_read);
    let bom = reader::bom_len(state.started, a);
    let slots = state.current.ends.len() + to_read * layout.num_columns;
    lemma_run_valid(
        layout,
        model::begun(state),
        slots as int,
        a.skip(bom as int),
        to_read,
        0,
        0,
    );
    if let Outcome::Done { state: after, read, .. } = model::decode(layout, state, a, to_read) {
        if read < to_read {
            let want = (to_read - read) as nat;
            let tight = state.current.ends.len() + want * layout.num_columns;
            let roomy = after.current.ends.len() + want * layout.num_columns;
            lemma_run_trimmed(layout, after, tight as int, tight as int, b, want, 0, 0);
            lemma_run_trimmed(layout, after, roomy as int, tight as int, b, want, 0, 0);
        }
    }
}

/// Whether the fields in excess of a record that goes on have been dropped yet
/// does not show in what is decoded from then on.
pub proof fn lemma_decode_trimmed(
    layout: Layout,
    state: DecoderState,
    input: Seq<u8>,
    to_read: nat,
)
    requires
        layout.ignore_extra_columns,
        layout.num_columns > 0,
        state.current.valid(),
    ensures
        trimmed_outcome(layout, model::decode(layout, state, input, to_read)) == trimmed_outcome(
            layout,
            model::decode(layout, trimmed(layout, state), input, to_read),
        ),
{
    let n = layout.num_columns;
    let trim = trimmed(layout, state);
    let bom = reader::bom_len(state.started, input);
    let body = input.skip(bom as int);
    if to_read > 0 && body.len() > 0 {
        let slots = state.current.ends.len() + to_read * n;
        let other = trim.current.ends.len() + to_read * n;
        lemma_run_trimmed(
            layout,
            model::begun(state),
            slots as int,
            other as int,
            body,
            to_read,
            0,
            0,
        );
        assert(trimmed(layout, model::begun(state)) == model::begun(trim));
    } else if to_read > 0 && state != trim {
        let current = state.current;
        let longer = Record { ends: current.ends.push(current.bytes.len()), ..current };
        assert(longer.ends.take(current.ends.len() as int) =~= current.ends);
        assert(longer.bytes.take(current.bytes.len() as int) =~= current.bytes);
        lemma_cut_longer(current, longer, n);
    }
}

/// A state with rows in front, and with rows that were padded or that lost
/// fields added to the counts.
pub open spec fn behind(
    rows: Seq<Record>,
    truncated: nat,
    extra: nat,
    state: DecoderState,
) -> DecoderState {
    DecoderState {
        rows: rows + state.rows,
        truncated: truncated + state.truncated,
        extra: extra + state.extra,
        ..state
    }
}

/// An outcome with rows in front, and with rows that were padded or that lost
/// fields added to the counts.
pub open spec fn outcome_behind(
    rows: Seq<Record>,
    truncated: nat,
    extra: nat,
    outcome: Outcome,
) -> Outcome {
    match outcome {
        Outcome::Done { state, read, consumed } => Outcome::Done {
            state: behind(rows, truncated, extra, state),
            read,
            consumed,
        },
        Outcome::Failed { error, state } => Outcome::Failed {
            error,
            state: behind(rows, truncated, extra, state),
        },
    }
}

/// The rows that a decoder holds, and what it has counted, have no part in what
/// it decodes. So it goes on in the same way after it has been cleared or
/// flushed.
pub proof fn lemma_decode_behind(
    layout: Layout,
    state: DecoderState,
    rows: Seq<Record>,
    truncated: nat,
    extra: nat,
    input: Seq<u8>,
    to_read: nat,
)
    ensures
        model::decode(layout, behind(rows, truncated, extra, state), input, to_read)
            == outcome_behind(
            rows,
            truncated,
            extra,
            model::decode(layout, state, input, to_read),
        ),
{
    let bom = reader::bom_len(state.started, input);
    let body = input.skip(bom as int);
    let slots = state.current.ends.len() + to_read * layout.num_columns;
    if to_read > 0 && body.len() > 0 {
        lemma_run_behind(
            layout,
            model::begun(state),
            rows,
            truncated,
            extra,
            slots as int,
            body,
            to_read,
            0,
            0,
        );
    } else if to_read > 0 {
        let begun = model::begun(state);
        let end = reader::csv_finish(state.machine);
        let ended = DecoderState { machine: end.next, ..begun };
        let current = state.current;
        let last = if state.skipping {
            ended
        } else {
            DecoderState {
                current: Record { ends: current.ends.push(current.bytes.len()), ..current },
                ..ended
            }
        };
        lemma_end_record_behind(layout, last, rows, truncated, extra);
    }
}

proof fn lemma_end_record_behind(
    layout: Layout,
    state: DecoderState,
    rows: Seq<Record>,
    truncated: nat,
    extra: nat,
)
    ensures
        model::end_record(layout, behind(rows, truncated, extra, state)) == match model::end_record(
            layout,
            state,
        ) {
            Ok(ended) => Ok(behind(rows, truncated, extra, ended)),
            Err(error) => Err(error),
        },
{
    assert forall|row: Record| #[trigger] (rows + state.rows).push(row) == rows + state.rows.push(
        row,
    ) by {
        assert((rows + state.rows).push(row) =~= rows + state.rows.push(row));
    }
}

proof fn lemma_run_behind(
    layout: Layout,
    state: DecoderState,
    rows: Seq<Record>,
    truncated: nat,
    extra: nat,
    slots: int,
    input: Seq<u8>,
    want: nat,
    read: nat,
    pos: int,
)
    ensures
        model::run(
            layout,
            behind(rows, truncated, extra, state),
            slots,
            input,
            want,
            read,
            pos,
        ) == outcome_behind(
            rows,
            truncated,
            extra,
            model::run(layout, state, slots, input, want, read, pos),
        ),
    decreases input.len() - pos,
{
    if pos < input.len() && want > 0 && !(model::is_full(state, slots)
        && !layout.ignore_extra_columns) {
        let ready = if model::is_full(state, slots) {
            model::start_skipping(layout, state)
        } else {
            state
        };
        let next = model::take_byte(ready, input[pos]);
        if reader::csv_step(state.machine, input[pos]).boundary is Record {
            lemma_end_record_behind(layout, next, rows, truncated, extra);
            if let Ok(ended) = model::end_record(layout, next) {
                let left = slots - layout.num_columns;
                let fewer = (want - 1) as nat;
                lemma_run_behind(
                    layout,
                    ended,
                    rows,
                    truncated,
                    extra,
                    left,
                    input,
                    fewer,
                    read + 1,
                    pos + 1,
                );
            }
        } else {
            lemma_run_behind(
                layout,
                next,
                rows,
                truncated,
                extra,
                slots,
                input,
                want,
                read,
                pos + 1,
            );
        }
    }
}

/// Where the input of a new decoder is cut does not matter: two calls read the same
/// number of rows and bytes as one call on all of the input, and a flush then gives
/// the same rows, or is refused, after both.
///
/// `first` is what the first of the two calls leaves, `second` what the second
/// leaves, and `whole` what the one call leaves.
pub proof fn lemma_flush_after_pieces(
    start: &RecordDecoder,
    first: &RecordDecoder,
    second: &RecordDecoder,
    whole: &RecordDecoder,
    a: Seq<u8>,
    b: Seq<u8>,
    to_read: nat,
)
    requires
        start.wf(),
        first.wf(),
        second.wf(),
        whole.wf(),
        second.layout() == start.layout(),
        whole.layout() == start.layout(),
        second.offsets_len <= second.offsets@.len(),
        whole.offsets_len <= whole.offsets@.len(),
        start@.current == Record::empty(),
        reader::bom_len(start@.started, a) == reader::bom_len(start@.started, a + b) < a.len(),
        b.len() > 0,
        model::decode(start.layout(), start@, a, to_read) matches Outcome::Done {
            state,
            read,
            ..
        } && state == first@ && read < to_read,
        ({
            let left = (to_read - model::decode(start.layout(), start@, a, to_read)->read) as nat;
            model::decode(start.layout(), first@, b, left) matches Outcome::Done { state, .. }
                && state == second@
        }),
        model::decode(start.layout(), start@, a + b, to_read) matches Outcome::Done { state, .. }
            && state == whole@,
    ensures
        ({
            let one = model::decode(start.layout(), start@, a, to_read);
            let two = model::decode(start.layout(), first@, b, (to_read - one->read) as nat);
            let all = model::decode(start.layout(), start@, a + b, to_read);
            &&& one->consumed == a.len()
            &&& all->read == one->read + two->read
            &&& all->consumed == a.len() + two->consumed
        }),
        whole@.rows == second@.rows,
        whole.flush_error() is None <==> second.flush_error() is None,
{
    let layout = start.layout();
    lemma_decode_counts(layout, start@, a, to_read);
    if layout.ignore_extra_columns {
        lemma_decode_in_pieces_ignoring_extra(layout, start@, a, b, to_read);
        let one = trimmed(layout, whole@);
        let two = trimmed(layout, second@);
        assert(one == two);
        assert(whole@.current.ends.len() == 0 <==> one.current.ends.len() == 0);
        assert(second@.current.ends.len() == 0 <==> two.current.ends.len() == 0);
    } else {
        if start.num_columns == 0 {
            lemma_zero_columns(start, a, to_read);
        }
        lemma_decode_in_pieces(layout, start@, a, b, to_read);
    }
    assert(whole@.current.ends.len() == whole.current_field);
    assert(whole@.current.bytes.len() == whole.data_len - whole.record_data_start);
    assert(second@.current.ends.len() == second.current_field);
    assert(second@.current.bytes.len() == second.data_len - second.record_data_start);
    assert(whole.is_partial() == second.is_partial());
    if !whole.is_partial() {
        whole.lemma_flush_accepts_text();
        second.lemma_flush_accepts_text();
        assert(whole.num_rows == whole@.rows.len() && second.num_rows == second@.rows.len());
        if whole.flush_error() is None {
            assert(forall|row: int|
                0 <= row < second.num_rows ==> flush::is_text(#[trigger] second@.rows[row]));
        }
        if second.flush_error() is None {
            assert(forall|row: int|
                0 <= row < whole.num_rows ==> flush::is_text(#[trigger] whole@.rows[row]));
        }
    }
}

/// No row has no columns: a decoder for zero columns refuses all bytes.
pub proof fn lemma_zero_columns(decoder: &RecordDecoder, input: Seq<u8>, to_read: nat)
    requires
        decoder.wf(),
        decoder.num_columns == 0,
    ensures
        decoder@.rows.len() == 0,
        to_read > 0 && reader::bom_len(decoder@.started, input) < input.len() ==> model::decode(
            decoder.layout(),
            decoder@,
            input,
            to_read,
        ) == (Outcome::Failed {
            error: model::too_many_fields(decoder.layout(), decoder@),
            state: model::begun(decoder@),
        }),
{
    assert(to_read * 0 == 0) by (nonlinear_arith);
}

/// With zero columns it makes no difference whether extra columns are ignored: two
/// new decoders, whose readers have read nothing and go by the same table, give the
/// same result for every input.
pub proof fn lemma_zero_columns_ignore_nothing(
    ignoring: &RecordDecoder,
    other: &RecordDecoder,
    view: ReaderView,
    other_view: ReaderView,
    truncated_rows: bool,
    input: Seq<u8>,
    to_read: nat,
)
    requires
        ignoring.is_new(view, 0, truncated_rows, true),
        other.is_new(other_view, 0, truncated_rows, false),
        reader::is_fresh(view),
        reader::is_fresh(other_view),
        view.machine == other_view.machine,
    ensures
        ignoring@.rows.len() == 0 && other@.rows.len() == 0,
        ignoring@.truncated == 0 && other@.truncated == 0,
        ignoring@.extra == 0 && other@.extra == 0,
        model::decode(ignoring.layout(), ignoring@, input, to_read) == model::decode(
            other.layout(),
            other@,
            input,
            to_read,
        ),
{
}

/// Every row that a decoder holds has as many fields as there are columns, and
/// their ends are in order.
pub proof fn lemma_rows_have_all_columns(decoder: &RecordDecoder, row: int)
    requires
        decoder.wf(),
        0 <= row < decoder.num_rows,
    ensures
        decoder@.rows.len() == decoder.num_rows,
        decoder@.rows[row].ends.len() == decoder.num_columns,
        decoder@.rows[row].valid(),
{
}

} // verus!
