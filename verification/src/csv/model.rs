//! What a record decoder does, as a function of the bytes that it is fed.

use crate::csv::error::CsvError;
use crate::csv::reader;
use crate::csv::reader::{Read, ReaderView, Scan};
use vstd::prelude::*;

verus! {

/// A record: the contents of its fields, one after the other, and where in them
/// each field ends.
#[verifier::ext_equal]
pub struct Record {
    pub bytes: Seq<u8>,
    pub ends: Seq<nat>,
}

impl Record {
    pub open spec fn empty() -> Record {
        Record { bytes: Seq::empty(), ends: Seq::empty() }
    }

    /// Where field `i` starts.
    pub open spec fn start(self, i: int) -> nat {
        if i == 0 {
            0
        } else {
            self.ends[i - 1]
        }
    }

    /// The contents of field `i`.
    pub open spec fn field(self, i: int) -> Seq<u8> {
        self.bytes.subrange(self.start(i) as int, self.ends[i] as int)
    }

    /// The first `n` fields.
    pub open spec fn cut(self, n: nat) -> Record {
        let end = self.start(n as int) as int;
        Record { bytes: self.bytes.take(end), ends: self.ends.take(n as int) }
    }

    /// The fields, followed by empty ones up to `n` in all.
    pub open spec fn pad(self, n: nat) -> Record {
        Record {
            bytes: self.bytes,
            ends: self.ends + Seq::new(
                (n - self.ends.len()) as nat,
                |i: int| self.start(self.ends.len() as int),
            ),
        }
    }

    /// The ends are in order and inside of the contents.
    pub open spec fn valid(self) -> bool {
        &&& forall|i: int, j: int|
            0 <= i <= j < self.ends.len() ==> self.ends[i] <= #[trigger] self.ends[j]
                && (#[trigger] self.ends[i]) <= self.bytes.len()
    }
}

/// What rows a decoder is to produce.
pub struct Layout {
    /// The number of fields in each row.
    pub num_columns: nat,
    /// Whether rows with too few fields are filled up with empty ones.
    pub truncated_rows: bool,
    /// Whether fields in excess are dropped.
    pub ignore_extra_columns: bool,
}

/// What a decoder holds between calls.
#[verifier::ext_equal]
pub struct DecoderState {
    /// The state of the CSV reader.
    pub machine: int,
    /// Whether the CSV reader has read anything.
    pub started: bool,
    /// The complete rows.
    pub rows: Seq<Record>,
    /// The record being read.
    pub current: Record,
    /// Whether the rest of the record being read is dropped.
    pub skipping: bool,
    /// The number of rows that were filled up.
    pub truncated: nat,
    /// The number of rows that lost fields.
    pub extra: nat,
    /// The line number of the record being read.
    pub line: nat,
}

/// How a decoding call ends.
pub enum Outcome {
    /// After `read` rows and `consumed` bytes.
    Done { state: DecoderState, read: nat, consumed: nat },
    /// With an error.
    Failed { error: CsvError, state: DecoderState },
}

/// Drops what the record being read holds beyond `layout.num_columns` fields,
/// and all that is still to come of it.
pub open spec fn start_skipping(layout: Layout, state: DecoderState) -> DecoderState {
    DecoderState {
        current: state.current.cut(layout.num_columns),
        skipping: true,
        extra: state.extra + 1,
        ..state
    }
}

/// The record being read has all fields that `slots` has space for, and goes on.
pub open spec fn is_full(state: DecoderState, slots: int) -> bool {
    !state.skipping && state.current.ends.len() >= slots
}

pub open spec fn too_many_fields(layout: Layout, state: DecoderState) -> CsvError {
    CsvError::TooManyFields {
        line: state.line as usize,
        expected: layout.num_columns as usize,
        more_than: state.current.ends.len() as usize,
    }
}

/// Adds a row and turns to the next record.
pub open spec fn push_row(state: DecoderState, row: Record) -> DecoderState {
    DecoderState {
        rows: state.rows.push(row),
        current: Record::empty(),
        skipping: false,
        line: state.line + 1,
        ..state
    }
}

/// The record being read is complete.
pub open spec fn end_record(layout: Layout, state: DecoderState) -> Result<
    DecoderState,
    CsvError,
> {
    let fields = state.current.ends.len();
    if state.skipping || fields == layout.num_columns {
        Ok(push_row(state, state.current))
    } else if fields < layout.num_columns && layout.truncated_rows {
        Ok(
            push_row(
                DecoderState { truncated: state.truncated + 1, ..state },
                state.current.pad(layout.num_columns),
            ),
        )
    } else if fields > layout.num_columns && layout.ignore_extra_columns {
        Ok(
            push_row(
                DecoderState { extra: state.extra + 1, ..state },
                state.current.cut(layout.num_columns),
            ),
        )
    } else {
        Err(
            CsvError::IncorrectFields {
                line: state.line as usize,
                expected: layout.num_columns as usize,
                got: fields as usize,
            },
        )
    }
}

/// The reader moves over one byte. Unless the record is being skipped, the byte
/// goes into it.
pub open spec fn take_byte(state: DecoderState, byte: u8) -> DecoderState {
    let step = reader::csv_step(state.machine, byte);
    if state.skipping {
        DecoderState { machine: step.next, ..state }
    } else {
        let bytes = if step.emits {
            state.current.bytes.push(byte)
        } else {
            state.current.bytes
        };
        let ends = if step.boundary is Nothing {
            state.current.ends
        } else {
            state.current.ends.push(bytes.len())
        };
        DecoderState { machine: step.next, current: Record { bytes, ends }, ..state }
    }
}

/// The bytes of `input` from `pos` on are decoded until `want` rows are complete
/// or there are no more bytes.
///
/// The record being read has space for `slots` fields. One that needs more is an
/// error, unless fields in excess are dropped.
pub open spec fn run(
    layout: Layout,
    state: DecoderState,
    slots: int,
    input: Seq<u8>,
    want: nat,
    read: nat,
    pos: int,
) -> Outcome
    decreases input.len() - pos,
{
    if pos >= input.len() || want == 0 {
        Outcome::Done { state, read, consumed: pos as nat }
    } else if is_full(state, slots) && !layout.ignore_extra_columns {
        Outcome::Failed { error: too_many_fields(layout, state), state }
    } else {
        let ready = if is_full(state, slots) {
            start_skipping(layout, state)
        } else {
            state
        };
        let next = take_byte(ready, input[pos]);
        if reader::csv_step(state.machine, input[pos]).boundary is Record {
            match end_record(layout, next) {
                Ok(ended) => run(
                    layout,
                    ended,
                    slots - layout.num_columns,
                    input,
                    (want - 1) as nat,
                    read + 1,
                    pos + 1,
                ),
                Err(error) => Outcome::Failed { error, state: next },
            }
        } else {
            run(layout, next, slots, input, want, read, pos + 1)
        }
    }
}

/// There are no more bytes: a record that is still open is complete.
pub open spec fn finish(layout: Layout, state: DecoderState) -> Outcome {
    let end = reader::csv_finish(state.machine);
    let ended = DecoderState { machine: end.next, ..state };
    if !end.record {
        Outcome::Done { state: ended, read: 0, consumed: 0 }
    } else if layout.num_columns == 0 {
        Outcome::Failed { error: too_many_fields(layout, state), state }
    } else {
        let last = if state.skipping {
            ended
        } else {
            let current = state.current;
            DecoderState {
                current: Record { ends: current.ends.push(current.bytes.len()), ..current },
                ..ended
            }
        };
        match end_record(layout, last) {
            Ok(state) => Outcome::Done { state, read: 1, consumed: 0 },
            Err(error) => Outcome::Failed { error, state: last },
        }
    }
}

/// Decodes up to `to_read` rows from `input`. Empty input stands for the end of
/// all data.
///
/// A byte order mark in front of all data is dropped. The record being read has
/// space for the fields that it has, and for those of `to_read` rows.
pub open spec fn decode(
    layout: Layout,
    state: DecoderState,
    input: Seq<u8>,
    to_read: nat,
) -> Outcome {
    let bom = reader::bom_len(state.started, input);
    let body = input.skip(bom as int);
    let started = begun(state);
    let slots = state.current.ends.len() + to_read * layout.num_columns;
    if to_read == 0 {
        Outcome::Done { state, read: 0, consumed: 0 }
    } else if body.len() == 0 {
        after(bom, finish(layout, started))
    } else {
        after(bom, run(layout, started, slots as int, body, to_read, 0, 0))
    }
}

/// The state, once the CSV reader has read something.
pub open spec fn begun(state: DecoderState) -> DecoderState {
    DecoderState { started: true, ..state }
}

/// An outcome, counted from `offset` bytes earlier on.
pub open spec fn after(offset: nat, outcome: Outcome) -> Outcome {
    match outcome {
        Outcome::Done { state, read, consumed } => Outcome::Done {
            state,
            read,
            consumed: offset + consumed,
        },
        Outcome::Failed { error, state } => Outcome::Failed { error, state },
    }
}

/// The record being read takes in what a reader has written.
pub open spec fn absorb(state: DecoderState, walked: Scan) -> DecoderState {
    if state.skipping {
        DecoderState { machine: walked.machine, ..state }
    } else {
        DecoderState {
            machine: walked.machine,
            current: Record {
                bytes: state.current.bytes + walked.out,
                ends: state.current.ends + walked.ends,
            },
            ..state
        }
    }
}

/// What a reader writes over one record: its ends are in order, and lie between
/// the position that it started at and the one that it reached.
pub(crate) proof fn lemma_scan_ends(machine: int, position: nat, bytes: Seq<u8>)
    ensures
        reader::scan(machine, position, bytes).out.len() <= bytes.len(),
        reader::scan(machine, position, bytes).ends.len() <= bytes.len(),
        ({
            let walked = reader::scan(machine, position, bytes);
            let last = position + walked.out.len();
            &&& forall|i: int|
                0 <= i < walked.ends.len() ==> position <= #[trigger] walked.ends[i] <= last
            &&& forall|i: int, j: int|
                0 <= i <= j < walked.ends.len() ==> (#[trigger] walked.ends[i])
                    <= #[trigger] walked.ends[j]
            &&& walked.record ==> walked.ends.len() > 0 && walked.ends.last() == last
        }),
    decreases bytes.len(),
{
    if bytes.len() > 0 {
        lemma_scan_ends(machine, position, bytes.drop_last());
    }
}

/// The position that a reader counts field ends from changes nothing else.
pub(crate) proof fn lemma_scan_position(machine: int, position: nat, other: nat, bytes: Seq<u8>)
    ensures
        ({
            let a = reader::scan(machine, position, bytes);
            let b = reader::scan(machine, other, bytes);
            &&& a.machine == b.machine
            &&& a.out == b.out
            &&& a.ends.len() == b.ends.len()
            &&& a.record == b.record
        }),
    decreases bytes.len(),
{
    if bytes.len() > 0 {
        lemma_scan_position(machine, position, other, bytes.drop_last());
    }
}

/// Moving over bytes one at a time is what a reader does in one go, as long as
/// no record ends and the record being read does not fill up.
pub(crate) proof fn lemma_run_walk(
    layout: Layout,
    state: DecoderState,
    slots: int,
    input: Seq<u8>,
    want: nat,
    read: nat,
    pos: int,
    n: int,
)
    requires
        want > 0,
        0 <= pos,
        0 <= n,
        pos + n <= input.len(),
        !is_full(state, slots),
        forall|k: int|
            0 < k <= n ==> {
                let walked = reader::scan(
                    state.machine,
                    state.current.bytes.len(),
                    #[trigger] input.subrange(pos, pos + k),
                );
                !walked.record && !is_full(absorb(state, walked), slots)
            },
    ensures
        ({
            let walked = reader::scan(
                state.machine,
                state.current.bytes.len(),
                input.subrange(pos, pos + n),
            );
            run(layout, state, slots, input, want, read, pos) == run(
                layout,
                absorb(state, walked),
                slots,
                input,
                want,
                read,
                pos + n,
            )
        }),
    decreases n,
{
    let position = state.current.bytes.len();
    let bytes = input.subrange(pos, pos + n);
    let walked = reader::scan(state.machine, position, bytes);
    if n == 0 {
        assert(absorb(state, walked) =~= state);
    } else {
        lemma_run_walk(layout, state, slots, input, want, read, pos, n - 1);
        lemma_walk_byte(state, input, pos, n);
        let shorter = input.subrange(pos, pos + n - 1);
        let before = absorb(state, reader::scan(state.machine, position, shorter));
        assert(!is_full(before, slots)) by {
            if n == 1 {
                assert(before =~= state);
            }
        }
        assert(bytes.drop_last() =~= shorter);
        assert(bytes.last() == input[pos + n - 1]);
    }
}

/// One byte more, taken in by the record being read.
pub(crate) proof fn lemma_walk_byte(state: DecoderState, input: Seq<u8>, pos: int, n: int)
    requires
        0 <= pos,
        0 < n,
        pos + n <= input.len(),
    ensures
        ({
            let position = state.current.bytes.len();
            let before = reader::scan(state.machine, position, input.subrange(pos, pos + n - 1));
            let after = reader::scan(state.machine, position, input.subrange(pos, pos + n));
            &&& take_byte(absorb(state, before), input[pos + n - 1]) == absorb(state, after)
            &&& after.record == (reader::csv_step(
                before.machine,
                input[pos + n - 1],
            ).boundary is Record)
        }),
{
    let position = state.current.bytes.len();
    let bytes = input.subrange(pos, pos + n);
    let shorter = input.subrange(pos, pos + n - 1);
    assert(bytes.drop_last() =~= shorter);
    let before = reader::scan(state.machine, position, shorter);
    let after = reader::scan(state.machine, position, bytes);
    let taken = take_byte(absorb(state, before), bytes.last());
    assert(taken.current.bytes =~= absorb(state, after).current.bytes);
    assert(taken.current.ends =~= absorb(state, after).current.ends);
}

/// The state after a reader has walked over bytes and completed a record with
/// the last of them, or not.
pub open spec fn walk_on(
    layout: Layout,
    next: DecoderState,
    slots: int,
    input: Seq<u8>,
    want: nat,
    read: nat,
    pos: int,
    record: bool,
) -> Outcome {
    if record {
        match end_record(layout, next) {
            Ok(ended) => run(
                layout,
                ended,
                slots - layout.num_columns,
                input,
                (want - 1) as nat,
                read + 1,
                pos,
            ),
            Err(error) => Outcome::Failed { error, state: next },
        }
    } else {
        run(layout, next, slots, input, want, read, pos)
    }
}

/// A run goes on behind the bytes that a reader has walked over in one go.
pub(crate) proof fn lemma_run_read(
    layout: Layout,
    state: DecoderState,
    slots: int,
    input: Seq<u8>,
    want: nat,
    read: nat,
    pos: int,
    n: int,
)
    requires
        want > 0,
        0 <= pos,
        0 < n,
        pos + n <= input.len(),
        !is_full(state, slots),
        forall|k: int|
            0 < k < n ==> {
                let walked = reader::scan(
                    state.machine,
                    state.current.bytes.len(),
                    #[trigger] input.skip(pos).take(k),
                );
                !walked.record && !is_full(absorb(state, walked), slots)
            },
    ensures
        ({
            let walked = reader::scan(
                state.machine,
                state.current.bytes.len(),
                input.skip(pos).take(n),
            );
            run(layout, state, slots, input, want, read, pos) == walk_on(
                layout,
                absorb(state, walked),
                slots,
                input,
                want,
                read,
                pos + n,
                walked.record,
            )
        }),
{
    assert forall|k: int| 0 <= k <= n implies #[trigger] input.subrange(pos, pos + k)
        == input.skip(pos).take(k) by {
        assert(input.subrange(pos, pos + k) =~= input.skip(pos).take(k));
    }
    lemma_run_walk(layout, state, slots, input, want, read, pos, n - 1);
    lemma_walk_byte(state, input, pos, n);
    let position = state.current.bytes.len();
    let before = absorb(
        state,
        reader::scan(state.machine, position, input.subrange(pos, pos + n - 1)),
    );
    assert(!is_full(before, slots)) by {
        if n == 1 {
            assert(before =~= state);
        }
    }
}

/// The state after a call of `read_record`.
pub open spec fn after_read(state: DecoderState, after: ReaderView, read: Read) -> DecoderState {
    absorb(
        state,
        Scan {
            machine: after.machine,
            out: read.out,
            ends: read.ends,
            record: read.outcome is Record,
        },
    )
}

/// A run goes on behind the bytes that a call of `read_record` has consumed.
pub(crate) proof fn lemma_reads_run(
    layout: Layout,
    state: DecoderState,
    slots: int,
    input: Seq<u8>,
    want: nat,
    count: nat,
    pos: int,
    before: ReaderView,
    after: ReaderView,
    rest: Seq<u8>,
    out_room: nat,
    ends_room: nat,
    read: Read,
)
    requires
        reader::reads(before, after, rest, out_room, ends_room, read),
        before.machine == state.machine,
        rest.skip(reader::bom_len(before.started, rest) as int) == input.skip(pos),
        0 <= pos < input.len(),
        want > 0,
        out_room > 0,
        ends_room > 0,
        !state.skipping ==> before.position == state.current.bytes.len(),
        !state.skipping ==> ends_room == slots - state.current.ends.len(),
    ensures
        ({
            let n = read.consumed - reader::bom_len(before.started, rest);
            let next = after_read(state, after, read);
            &&& 0 < n <= input.len() - pos
            &&& run(layout, state, slots, input, want, count, pos) == walk_on(
                layout,
                next,
                slots,
                input,
                want,
                count,
                pos + n,
                read.outcome is Record,
            )
            &&& !(read.outcome is End)
            &&& read.outcome is InputEmpty ==> pos + n == input.len()
            &&& read.outcome is OutputFull || read.outcome is OutputEndsFull ==> pos + n
                < input.len()
            &&& !state.skipping && read.outcome is OutputEndsFull ==> is_full(next, slots)
        }),
{
    let n = read.consumed - reader::bom_len(before.started, rest);
    let position = state.current.bytes.len();
    assert forall|k: int| 0 < k < n implies {
        let walked = reader::scan(state.machine, position, #[trigger] input.skip(pos).take(k));
        !walked.record && !is_full(absorb(state, walked), slots)
    } by {
        lemma_scan_position(state.machine, position, before.position, input.skip(pos).take(k));
    }
    lemma_scan_position(state.machine, position, before.position, input.skip(pos).take(n));
    lemma_run_read(layout, state, slots, input, want, count, pos, n);
}

/// A record that is full goes on as one that is skipped.
pub(crate) proof fn lemma_run_full(
    layout: Layout,
    state: DecoderState,
    slots: int,
    input: Seq<u8>,
    want: nat,
    read: nat,
    pos: int,
)
    requires
        is_full(state, slots),
        pos < input.len(),
        want > 0,
    ensures
        run(layout, state, slots, input, want, read, pos) == if layout.ignore_extra_columns {
            run(layout, start_skipping(layout, state), slots, input, want, read, pos)
        } else {
            Outcome::Failed { error: too_many_fields(layout, state), state }
        },
{
}

} // verus!
