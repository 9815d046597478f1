//! The byte-level behaviour of the `csv_core` record reader.
//!
//! `csv_core` walks its input one byte at a time through a transition table.
//! What the table holds is left to `csv_core` and is only named here; how a
//! call of `read_record` walks it, and where it stops, is spelled out.

use vstd::prelude::*;

verus! {

/// The streaming CSV parser of `csv_core`. A value of it is opaque; what the
/// contracts say of it goes through [`reader_view`].
#[verifier::external_type_specification]
#[verifier::external_body]
pub struct ExReader(csv_core::Reader);

/// The plain values held by a `csv_core::Reader`.
pub struct ReaderView {
    /// The transition table and the state that the reader is in.
    pub machine: int,
    /// The number of bytes written so far for the record being read.
    pub position: nat,
    /// The number of the current line.
    pub line: nat,
    /// Whether anything has been read; a byte order mark is only dropped before.
    pub started: bool,
    /// Whether the reader runs a transition table that its builder has filled.
    /// `false` in the hidden debugging mode of `csv_core::ReaderBuilder::nfa`, and
    /// for the bare `csv_core::Reader::default`, whose table was never filled.
    pub table_driven: bool,
}

/// What a `csv_core::Reader` holds.
pub uninterp spec fn reader_view(reader: csv_core::Reader) -> ReaderView;

/// What a byte of input completes.
pub enum Boundary {
    Nothing,
    Field,
    Record,
}

/// What a reader does with one byte of input.
pub struct Step {
    /// The state that the reader moves to.
    pub next: int,
    /// Whether the byte is part of the field's contents.
    pub emits: bool,
    /// What the byte completes.
    pub boundary: Boundary,
}

/// The transition that the table of `machine` holds for `byte`.
pub uninterp spec fn csv_step(machine: int, byte: u8) -> Step;

/// What a reader does at the end of all input.
pub struct Finish {
    /// The state that the reader moves to.
    pub next: int,
    /// Whether a record was still open.
    pub record: bool,
}

/// The transition of `machine` at the end of all input.
pub uninterp spec fn csv_finish(machine: int) -> Finish;

/// What a reader has done after some bytes of one record.
pub struct Scan {
    pub machine: int,
    /// The bytes written.
    pub out: Seq<u8>,
    /// The ends of the fields completed, counted from the start of the record.
    pub ends: Seq<nat>,
    /// Whether the last byte completed the record.
    pub record: bool,
}

/// A reader in state `machine`, which has written `position` bytes of its
/// record, walks over `bytes`.
pub open spec fn scan(machine: int, position: nat, bytes: Seq<u8>) -> Scan
    decreases bytes.len(),
{
    if bytes.len() == 0 {
        Scan { machine, out: Seq::empty(), ends: Seq::empty(), record: false }
    } else {
        let before = scan(machine, position, bytes.drop_last());
        let step = csv_step(before.machine, bytes.last());
        let out = if step.emits {
            before.out.push(bytes.last())
        } else {
            before.out
        };
        let ends = if step.boundary is Nothing {
            before.ends
        } else {
            before.ends.push(position + out.len())
        };
        Scan { machine: step.next, out, ends, record: step.boundary is Record }
    }
}

/// Whether a reader stops here: its record is complete, or one of the two
/// output buffers is full.
pub open spec fn stops(scan: Scan, out_room: nat, ends_room: nat) -> bool {
    scan.record || scan.out.len() >= out_room || scan.ends.len() >= ends_room
}

/// The length of the byte order mark that a reader drops in front of `input`.
pub open spec fn bom_len(started: bool, input: Seq<u8>) -> nat {
    if !started && input.len() >= 3 && input[0] == 0xef && input[1] == 0xbb && input[2] == 0xbf {
        3
    } else {
        0
    }
}

/// How a call of `read_record` ended.
pub enum ReadOutcome {
    /// The input ended before the record did.
    InputEmpty,
    /// The buffer for field contents is full.
    OutputFull,
    /// The buffer for field ends is full.
    OutputEndsFull,
    /// A record is complete.
    Record,
    /// All data has been read.
    End,
}

/// What a call of `read_record` hands back.
pub struct Read {
    pub outcome: ReadOutcome,
    pub consumed: nat,
    pub out: Seq<u8>,
    pub ends: Seq<nat>,
}

/// A call of `read_record` on `input`, with room for `out_room` bytes and
/// `ends_room` field ends, takes a reader from `before` to `after` and hands
/// back `read`.
///
/// Empty input stands for the end of all data. Other input is walked up to the
/// first byte at which the reader stops.
pub open spec fn reads(
    before: ReaderView,
    after: ReaderView,
    input: Seq<u8>,
    out_room: nat,
    ends_room: nat,
    read: Read,
) -> bool {
    let bom = bom_len(before.started, input);
    let body = input.skip(bom as int);
    let finish = csv_finish(before.machine);
    let n = read.consumed - bom;
    let walked = scan(before.machine, before.position, body.take(n));
    &&& after.started
    &&& after.table_driven
    &&& before.line <= after.line <= before.line + read.consumed
    &&& if body.len() == 0 && (!finish.record || ends_room > 0) {
        &&& n == 0
        &&& read.out == Seq::<u8>::empty()
        &&& after.machine == finish.next
        &&& if finish.record {
            &&& read.outcome is Record
            &&& read.ends == seq![before.position]
            &&& after.position == 0
        } else {
            &&& read.outcome is End
            &&& read.ends == Seq::<nat>::empty()
            &&& after.position == before.position
        }
    } else if body.len() == 0 || out_room == 0 || ends_room == 0 {
        &&& n == 0
        &&& read.out == Seq::<u8>::empty()
        &&& read.ends == Seq::<nat>::empty()
        &&& after.machine == before.machine
        &&& after.position == before.position
        &&& if body.len() > 0 && out_room == 0 {
            read.outcome is OutputFull
        } else {
            read.outcome is OutputEndsFull
        }
    } else {
        &&& 0 < n <= body.len()
        &&& forall|k: int|
            0 < k < n ==> !stops(
                scan(before.machine, before.position, #[trigger] body.take(k)),
                out_room,
                ends_room,
            )
        &&& n == body.len() || stops(walked, out_room, ends_room)
        &&& read.out == walked.out
        &&& read.ends == walked.ends
        &&& after.machine == walked.machine
        &&& after.position == if walked.record {
            0
        } else {
            before.position + walked.out.len()
        }
        &&& if walked.record {
            read.outcome is Record
        } else if n < body.len() && walked.out.len() >= out_room {
            read.outcome is OutputFull
        } else if n < body.len() && walked.ends.len() >= ends_room {
            read.outcome is OutputEndsFull
        } else {
            read.outcome is InputEmpty
        }
    }
}

/// `csv_core::Reader::read_record` on the input from `input_offset` on, which
/// writes field contents to `data` from `data_len` on and field ends to
/// `offsets` from `offsets_len` on.
///
/// Taken on trust: the reader walks its transition table as [`reads`] says, it
/// writes to the two buffers only what it hands back, and it counts no more
/// lines than bytes. Nothing is claimed of a reader that is not table
/// driven, nor of one whose counters would overflow.
#[verifier::external_body]
pub(crate) fn read_record(
    reader: &mut csv_core::Reader,
    input: &[u8],
    input_offset: usize,
    data: &mut Vec<u8>,
    data_len: usize,
    offsets: &mut Vec<usize>,
    offsets_len: usize,
) -> (r: (ReadOutcome, usize, usize, usize))
    requires
        reader_view(*old(reader)).table_driven,
        input_offset <= input@.len(),
        data_len <= old(data)@.len(),
        offsets_len <= old(offsets)@.len(),
        reader_view(*old(reader)).position + (input@.len() - input_offset) <= usize::MAX,
        reader_view(*old(reader)).line + (input@.len() - input_offset) <= u64::MAX,
    ensures
        input_offset + r.1 <= input@.len(),
        data_len + r.2 <= old(data)@.len(),
        offsets_len + r.3 <= old(offsets)@.len(),
        final(data)@.len() == old(data)@.len(),
        forall|i: int|
            0 <= i < data_len || data_len + r.2 <= i < old(data)@.len()
                ==> #[trigger] final(data)@[i] == old(data)@[i],
        final(offsets)@.len() == old(offsets)@.len(),
        forall|i: int|
            0 <= i < offsets_len || offsets_len + r.3 <= i < old(offsets)@.len()
                ==> #[trigger] final(offsets)@[i] == old(offsets)@[i],
        r.0 is End ==> reader_view(*final(reader)).machine
            == csv_finish(reader_view(*old(reader)).machine).next,
        r.1 == 1 ==> reader_view(*final(reader)).machine == csv_step(
            reader_view(*old(reader)).machine,
            input@[input_offset as int],
        ).next,
        reads(
            reader_view(*old(reader)),
            reader_view(*final(reader)),
            input@.skip(input_offset as int),
            (old(data)@.len() - data_len) as nat,
            (old(offsets)@.len() - offsets_len) as nat,
            (Read {
                outcome: r.0,
                consumed: r.1 as nat,
                out: final(data)@.subrange(data_len as int, data_len + r.2),
                ends: Seq::new(r.3 as nat, |i: int| final(offsets)@[offsets_len + i] as nat),
            }),
        ),
{
    let (result, bytes_read, bytes_written, end_positions) = reader.read_record(
        &input[input_offset..],
        &mut data[data_len..],
        &mut offsets[offsets_len..],
    );
    let outcome = match result {
        csv_core::ReadRecordResult::InputEmpty => ReadOutcome::InputEmpty,
        csv_core::ReadRecordResult::OutputFull => ReadOutcome::OutputFull,
        csv_core::ReadRecordResult::OutputEndsFull => ReadOutcome::OutputEndsFull,
        csv_core::ReadRecordResult::Record => ReadOutcome::Record,
        csv_core::ReadRecordResult::End => ReadOutcome::End,
    };
    (outcome, bytes_read, bytes_written, end_positions)
}

/// The state of a reader for commas that has read nothing, and has a table that is
/// the default otherwise. Which number stands for it is a matter of counting.
pub open spec fn default_machine() -> int {
    0
}

/// The state of a reader for `delimiter` that has read nothing, and has a table
/// that is the default otherwise.
pub uninterp spec fn delimited_machine(delimiter: u8) -> int;

/// The reader has read nothing, and goes by a table.
pub open spec fn is_fresh(view: ReaderView) -> bool {
    &&& view.table_driven
    &&& view.position == 0
    &&& view.line == 1
    &&& !view.started
}

/// `csv_core::Reader::new`: a reader in the default configuration, which has
/// read nothing. It has no open record, and stays as it is at the end of all input.
pub assume_specification[ csv_core::Reader::new ]() -> (fresh: csv_core::Reader)
    ensures
        is_fresh(reader_view(fresh)),
        reader_view(fresh).machine == default_machine(),
        csv_finish(reader_view(fresh).machine) == (Finish {
            next: reader_view(fresh).machine,
            record: false,
        }),
;

/// `csv_core::ReaderBuilder::build` on a new builder, for which only the delimiter
/// is set.
///
/// Taken on trust: what the reader makes of bytes depends on the delimiter alone;
/// with a comma it is the default reader. It has read nothing, has no open record,
/// and stays as it is at the end of all input.
#[verifier::external_body]
pub(crate) fn build_reader(delimiter: u8) -> (fresh: csv_core::Reader)
    ensures
        is_fresh(reader_view(fresh)),
        reader_view(fresh).machine == delimited_machine(delimiter),
        delimiter == 0x2c ==> reader_view(fresh).machine == default_machine(),
        csv_finish(reader_view(fresh).machine) == (Finish {
            next: reader_view(fresh).machine,
            record: false,
        }),
{
    csv_core::ReaderBuilder::new().delimiter(delimiter).build()
}

} // verus!
