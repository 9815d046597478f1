//! A push-based decoder of CSV records.

use crate::csv::error::CsvError;
use crate::csv::history;
use crate::csv::history::Call;
use crate::csv::model;
use crate::csv::model::{DecoderState, Layout, Outcome, Record};
use crate::csv::reader;
use crate::csv::reader::{Read, ReadOutcome, ReaderView};
use vstd::prelude::*;

verus! {

/// The estimated length of a field in bytes
pub const AVERAGE_FIELD_SIZE: usize = 8;

/// The minimum amount of data in a single read
pub const MIN_CAPACITY: usize = 1024;

/// The number of field ends buffered while discarding an oversized record
pub const SKIP_ENDS_CAPACITY: usize = 16;

/// Where row `row` starts, if `offsets` holds the ends of all fields, each
/// counted from the start of its row, behind a leading zero.
pub open spec fn row_start(offsets: Seq<usize>, num_columns: nat, row: nat) -> nat
    decreases row,
{
    if row == 0 {
        0
    } else {
        let last = (row * num_columns) as int;
        row_start(offsets, num_columns, (row - 1) as nat) + offsets[last] as nat
    }
}

/// Row `row` of the rows held in `offsets` and `data`.
pub open spec fn row_at(offsets: Seq<usize>, data: Seq<u8>, num_columns: nat, row: nat) -> Record {
    Record {
        bytes: data.subrange(
            row_start(offsets, num_columns, row) as int,
            row_start(offsets, num_columns, row + 1) as int,
        ),
        ends: Seq::new(num_columns, |i: int| offsets[row * num_columns + 1 + i] as nat),
    }
}

/// The first `n` rows held in `offsets` and `data`.
pub open spec fn rows_of(
    offsets: Seq<usize>,
    data: Seq<u8>,
    num_columns: nat,
    n: nat,
) -> Seq<Record> {
    Seq::new(n, |row: int| row_at(offsets, data, num_columns, row as nat))
}

/// [`RecordDecoder`] provides a push-based interface to decode [`StringRecords`]
#[derive(Debug)]
pub struct RecordDecoder {
    pub delimiter: csv_core::Reader,
    /// The expected number of fields per row
    pub num_columns: usize,
    /// The current line number
    pub line_number: usize,
    /// Offsets delimiting field start positions
    pub offsets: Vec<usize>,
    /// The current offset into `self.offsets`
    ///
    /// We track this independently of Vec to avoid re-zeroing memory
    pub offsets_len: usize,
    /// The number of fields read for the current record
    pub current_field: usize,
    /// The number of rows buffered
    pub num_rows: usize,
    /// Decoded field data
    pub data: Vec<u8>,
    /// Offsets into data
    ///
    /// We track this independently of Vec to avoid re-zeroing memory
    pub data_len: usize,
    /// Whether rows with less than expected columns are considered valid
    ///
    /// When enabled fills in missing columns with empty fields
    pub truncated_rows: bool,
    /// Whether rows with more than the expected number of columns are accepted
    /// with the extra trailing fields discarded
    pub ignore_extra_columns: bool,
    /// The value of `data_len` at the start of the current record
    ///
    /// `csv_core` writes field end offsets relative to the start of the record, so this is
    /// the base that must be added to them to obtain a position within `data`
    pub record_data_start: usize,
    /// Whether the remainder of an oversized record is currently being discarded
    pub skipping: bool,
    /// Reusable output buffers used while discarding an oversized record
    ///
    /// Only allocated once an oversized record is actually encountered
    pub scratch_data: Vec<u8>,
    pub scratch_ends: Vec<usize>,
    /// The number of rows padded because they had fewer fields than expected
    ///
    /// Only incremented when `truncated_rows` is enabled. Cumulative over the
    /// lifetime of this decoder, i.e. not reset by [`Self::flush`], but reset by
    /// [`Self::clear`] along with the buffered rows it counted
    pub truncated_row_count: usize,
    /// The number of rows that had trailing fields discarded because they had more
    /// fields than expected
    ///
    /// Only incremented when `ignore_extra_columns` is enabled. Has the same
    /// cumulative semantics as `truncated_row_count`
    pub extra_column_row_count: usize,
}

impl View for RecordDecoder {
    type V = DecoderState;

    open spec fn view(&self) -> DecoderState {
        DecoderState {
            machine: reader::reader_view(self.delimiter).machine,
            started: reader::reader_view(self.delimiter).started,
            rows: rows_of(
                self.offsets@,
                self.data@,
                self.num_columns as nat,
                self.num_rows as nat,
            ),
            current: self.current(),
            skipping: self.skipping,
            truncated: self.truncated_row_count as nat,
            extra: self.extra_column_row_count as nat,
            line: self.line_number as nat,
        }
    }
}

impl RecordDecoder {
    /// What rows the decoder produces.
    pub open spec fn layout(&self) -> Layout {
        Layout {
            num_columns: self.num_columns as nat,
            truncated_rows: self.truncated_rows,
            ignore_extra_columns: self.ignore_extra_columns,
        }
    }

    /// The record being read.
    pub open spec fn current(&self) -> Record {
        Record {
            bytes: self.data@.subrange(self.record_data_start as int, self.data_len as int),
            ends: Seq::new(
                self.current_field as nat,
                |i: int| self.offsets@[self.offsets_len - self.current_field + i] as nat,
            ),
        }
    }

    /// The buffers hold complete rows, followed by the record being read.
    pub open spec fn holds_records(&self) -> bool {
        let offsets = self.offsets@;
        let num_columns = self.num_columns as nat;
        &&& reader::reader_view(self.delimiter).table_driven
        &&& self.ignore_extra_columns ==> self.num_columns > 0
        &&& self.num_columns == 0 ==> self.num_rows == 0
        &&& self.offsets_len == 1 + self.num_rows * self.num_columns + self.current_field
        &&& self.offsets_len <= offsets.len() || self.offsets_len == 1 && offsets.len() == 0
        &&& offsets.len() > 0 ==> offsets[0] == 0
        &&& self.record_data_start <= self.data_len <= self.data@.len()
        &&& self.record_data_start == row_start(offsets, num_columns, self.num_rows as nat)
        &&& forall|row: int| 0 <= row < self.num_rows ==> #[trigger] self@.rows[row].valid()
        &&& self.current().valid()
        &&& self.num_rows < self.line_number
        &&& self.skipping ==> {
            &&& self.ignore_extra_columns
            &&& self.is_row()
            &&& self.scratch_data@.len() > 0
            &&& self.scratch_ends@.len() > 0
        }
    }

    /// The record being read has the fields of a row, and nothing behind them.
    pub open spec fn is_row(&self) -> bool {
        &&& 0 < self.current_field == self.num_columns
        &&& self.current().ends.last() == self.current().bytes.len()
    }

    /// The decoder is in order: its buffers hold records, and the CSV reader is
    /// where the record being read has got to.
    pub open spec fn wf(&self) -> bool {
        &&& self.holds_records()
        &&& !self.skipping ==> reader::reader_view(self.delimiter).position == self.data_len
            - self.record_data_start
        &&& self.truncated_row_count < self.line_number
        &&& self.extra_column_row_count <= self.line_number
        &&& !self.skipping ==> self.extra_column_row_count < self.line_number
    }

    /// The machine's integers are large enough to decode `to_read` rows from
    /// `input_len` bytes.
    pub open spec fn has_room(&self, input_len: nat, to_read: nat) -> bool {
        let cells = to_read * self.num_columns;
        &&& self.offsets_len + cells <= usize::MAX
        &&& cells * AVERAGE_FIELD_SIZE <= usize::MAX
        &&& self.data_len + input_len + cells * AVERAGE_FIELD_SIZE + MIN_CAPACITY <= usize::MAX
        &&& self.line_number + input_len + 1 <= usize::MAX
        &&& reader::reader_view(self.delimiter).position + input_len <= usize::MAX
        &&& reader::reader_view(self.delimiter).line + input_len <= u64::MAX
    }

    /// The space in `offsets` for the record being read.
    pub open spec fn slots(&self) -> int {
        self.offsets@.len() - self.offsets_len + self.current_field
    }
}

proof fn lemma_product(a: nat, b: nat)
    ensures
        0 <= a * b,
{
    assert(0 <= a * b) by (nonlinear_arith)
        requires
            0 <= a,
            0 <= b,
    ;
}

proof fn lemma_fewer_rows(rows: nat, n: nat, num_columns: nat)
    requires
        rows <= n,
    ensures
        0 <= rows * num_columns <= n * num_columns,
        rows * num_columns * AVERAGE_FIELD_SIZE <= n * num_columns * AVERAGE_FIELD_SIZE,
        num_columns == 0 ==> rows * num_columns == 0,
        rows > 0 ==> num_columns <= rows * num_columns,
        rows > 0 ==> rows * num_columns - num_columns == (rows - 1) * num_columns,
{
    assert(0 <= rows * num_columns <= n * num_columns) by (nonlinear_arith)
        requires
            0 <= rows <= n,
            0 <= num_columns,
    ;
    assert(num_columns == 0 ==> rows * num_columns == 0) by (nonlinear_arith);
    assert(rows > 0 ==> num_columns <= rows * num_columns) by (nonlinear_arith);
    assert(rows * num_columns - num_columns == (rows - 1) * num_columns) by (nonlinear_arith);
}

pub(crate) proof fn lemma_row_bounds(row: nat, n: nat, num_columns: nat)
    requires
        row < n,
    ensures
        row * num_columns + num_columns == (row + 1) * num_columns,
        0 <= row * num_columns,
        (row + 1) * num_columns <= n * num_columns,
{
    assert(row * num_columns + num_columns == (row + 1) * num_columns) by (nonlinear_arith);
    assert((row + 1) * num_columns <= n * num_columns) by (nonlinear_arith)
        requires
            row + 1 <= n,
    ;
    assert(0 <= row * num_columns) by (nonlinear_arith)
        requires
            0 <= row,
            0 <= num_columns,
    ;
}

proof fn lemma_row_start_same(a: Seq<usize>, b: Seq<usize>, num_columns: nat, row: nat)
    requires
        forall|i: int| 0 <= i <= row * num_columns ==> a[i] == b[i],
    ensures
        row_start(a, num_columns, row) == row_start(b, num_columns, row),
    decreases row,
{
    if row > 0 {
        lemma_row_bounds((row - 1) as nat, row, num_columns);
        lemma_row_start_same(a, b, num_columns, (row - 1) as nat);
        assert(a[(row * num_columns) as int] == b[(row * num_columns) as int]);
    }
}

pub(crate) proof fn lemma_row_start_order(offsets: Seq<usize>, num_columns: nat, row: nat, n: nat)
    requires
        row <= n,
    ensures
        row_start(offsets, num_columns, row) <= row_start(offsets, num_columns, n),
    decreases n - row,
{
    if row < n {
        lemma_row_start_order(offsets, num_columns, row, (n - 1) as nat);
    }
}

/// The rows depend on nothing behind them.
proof fn lemma_rows_same(
    a: Seq<usize>,
    b: Seq<usize>,
    data_a: Seq<u8>,
    data_b: Seq<u8>,
    num_columns: nat,
    n: nat,
)
    requires
        forall|i: int| 0 <= i <= n * num_columns ==> a[i] == b[i],
        row_start(a, num_columns, n) <= data_a.len(),
        row_start(a, num_columns, n) <= data_b.len(),
        forall|i: int| 0 <= i < row_start(a, num_columns, n) ==> data_a[i] == data_b[i],
    ensures
        rows_of(a, data_a, num_columns, n) == rows_of(b, data_b, num_columns, n),
        row_start(a, num_columns, n) == row_start(b, num_columns, n),
{
    lemma_row_start_same(a, b, num_columns, n);
    assert forall|row: int| 0 <= row < n implies rows_of(a, data_a, num_columns, n)[row] == rows_of(
        b,
        data_b,
        num_columns,
        n,
    )[row] by {
        let r = row as nat;
        lemma_row_bounds(r, n, num_columns);
        lemma_row_start_same(a, b, num_columns, r);
        lemma_row_start_same(a, b, num_columns, r + 1);
        lemma_row_start_order(a, num_columns, r + 1, n);
        lemma_row_start_order(a, num_columns, r, r + 1);
        let x = row_at(a, data_a, num_columns, r);
        let y = row_at(b, data_b, num_columns, r);
        assert(x.bytes =~= y.bytes);
        assert(x.ends =~= y.ends);
    }
    assert(rows_of(a, data_a, num_columns, n) =~= rows_of(b, data_b, num_columns, n));
}

/// What a read writes continues the record being read.
proof fn lemma_reads_valid(
    before: ReaderView,
    after: ReaderView,
    input: Seq<u8>,
    out_room: nat,
    ends_room: nat,
    read: Read,
    current: Record,
    longer: Record,
)
    requires
        reader::reads(before, after, input, out_room, ends_room, read),
        current.valid(),
        before.position == current.bytes.len(),
        longer.bytes == current.bytes + read.out,
        longer.ends == current.ends + read.ends,
    ensures
        longer.valid(),
        read.consumed <= input.len(),
        read.out.len() <= read.consumed,
        read.outcome is Record ==> longer.ends.len() > 0 && longer.ends.last()
            == longer.bytes.len() && after.position == 0,
        !(read.outcome is Record) ==> after.position == longer.bytes.len(),
{
    let bom = reader::bom_len(before.started, input);
    let body = input.skip(bom as int);
    let n = read.consumed - bom;
    model::lemma_scan_ends(before.machine, before.position, body.take(n));
    assert forall|i: int, j: int| 0 <= i <= j < longer.ends.len() implies longer.ends[i]
        <= #[trigger] longer.ends[j] && (#[trigger] longer.ends[i]) <= longer.bytes.len() by {
        if i < current.ends.len() {
            assert(current.ends[i] <= current.bytes.len());
            if j < current.ends.len() {
                assert(current.ends[i] <= current.ends[j]);
            }
        }
    }
}

impl RecordDecoder {
    /// The decoder holds nothing, and is to read with a reader that looks like
    /// `view`.
    pub open spec fn is_new(
        &self,
        view: ReaderView,
        num_columns: usize,
        truncated_rows: bool,
        ignore_extra_columns: bool,
    ) -> bool {
        &&& reader::reader_view(self.delimiter) == view
        &&& self.layout() == (Layout {
            num_columns: num_columns as nat,
            truncated_rows,
            ignore_extra_columns: ignore_extra_columns && num_columns > 0,
        })
        &&& self@ == (DecoderState {
            machine: view.machine,
            started: view.started,
            rows: Seq::empty(),
            current: Record::empty(),
            skipping: false,
            truncated: 0,
            extra: 0,
            line: 1,
        })
        &&& self.offsets_len == 1
        &&& self.data_len == 0
    }

    /// Creates a decoder of rows with `num_columns` fields, which reads with
    /// `delimiter`.
    ///
    /// There is nothing to truncate a record to in a row without columns, so
    /// such a decoder does not ignore extra columns.
    pub fn new(
        delimiter: csv_core::Reader,
        num_columns: usize,
        truncated_rows: bool,
        ignore_extra_columns: bool,
    ) -> (decoder: Self)
        ensures
            decoder.delimiter == delimiter,
            decoder.is_new(
                reader::reader_view(delimiter),
                num_columns,
                truncated_rows,
                ignore_extra_columns,
            ),
            reader::reader_view(delimiter).table_driven && reader::reader_view(delimiter).position
                == 0 ==> decoder.wf(),
            decoder.offsets@.len() == 0,
    {
        let decoder = Self {
            delimiter,
            num_columns,
            line_number: 1,
            offsets: Vec::new(),
            offsets_len: 1,  // The first offset is always 0
            current_field: 0,
            data_len: 0,
            data: Vec::new(),
            num_rows: 0,
            truncated_rows,
            ignore_extra_columns: ignore_extra_columns && num_columns > 0,
            record_data_start: 0,
            skipping: false,
            scratch_data: Vec::new(),
            scratch_ends: Vec::new(),
            truncated_row_count: 0,
            extra_column_row_count: 0,
        };
        assert(decoder@.rows =~= Seq::empty());
        assert(decoder@.current =~= Record::empty());
        decoder
    }

    /// Creates a decoder of rows with `num_columns` fields, which reads with the
    /// default CSV reader.
    pub fn with_default_reader(
        num_columns: usize,
        truncated_rows: bool,
        ignore_extra_columns: bool,
    ) -> (decoder: Self)
        ensures
            decoder.wf(),
            reader::is_fresh(reader::reader_view(decoder.delimiter)),
            decoder@.machine == reader::default_machine(),
            decoder.is_new(
                reader::reader_view(decoder.delimiter),
                num_columns,
                truncated_rows,
                ignore_extra_columns,
            ),
    {
        Self::new(csv_core::Reader::new(), num_columns, truncated_rows, ignore_extra_columns)
    }

    /// Creates a decoder of rows with `num_columns` fields, which reads with the
    /// default CSV reader but for the byte between two fields.
    pub fn with_delimiter(
        delimiter: u8,
        num_columns: usize,
        truncated_rows: bool,
        ignore_extra_columns: bool,
    ) -> (decoder: Self)
        ensures
            decoder.wf(),
            reader::is_fresh(reader::reader_view(decoder.delimiter)),
            decoder@.machine == reader::delimited_machine(delimiter),
            delimiter == 0x2c ==> decoder@.machine == reader::default_machine(),
            decoder.is_new(
                reader::reader_view(decoder.delimiter),
                num_columns,
                truncated_rows,
                ignore_extra_columns,
            ),
    {
        Self::new(
            reader::build_reader(delimiter),
            num_columns,
            truncated_rows,
            ignore_extra_columns,
        )
    }

    /// Nothing but the buffers and the reader differs from `before`.
    spec fn same_setup(&self, before: &Self) -> bool {
        &&& self.layout() == before.layout()
        &&& self.line_number == before.line_number
        &&& self.num_rows == before.num_rows
        &&& self.record_data_start == before.record_data_start
        &&& self.skipping == before.skipping
        &&& self.scratch_data@.len() == before.scratch_data@.len()
        &&& self.scratch_ends@.len() == before.scratch_ends@.len()
        &&& self.truncated_row_count == before.truncated_row_count
        &&& self.extra_column_row_count == before.extra_column_row_count
        &&& self.offsets@.len() == before.offsets@.len()
        &&& self.data@.len() == before.data@.len()
    }

    /// A call of `read_record` has taken the decoder from `before` to `self`, and
    /// has put what it wrote into the record being read, unless that is skipped.
    #[verifier::opaque]
    spec fn has_read(
        &self,
        before: &Self,
        rest: Seq<u8>,
        out_room: nat,
        ends_room: nat,
        outcome: ReadOutcome,
        consumed: nat,
    ) -> bool {
        let view = reader::reader_view(self.delimiter);
        exists|got: Read|
            {
                &&& got.outcome == outcome
                &&& got.consumed == consumed
                &&& #[trigger] reader::reads(
                    reader::reader_view(before.delimiter),
                    view,
                    rest,
                    out_room,
                    ends_room,
                    got,
                )
                &&& self@ == model::begun(model::after_read(before@, view, got))
            }
    }

    /// Reads on in the current record.
    fn read_fields(&mut self, input: &[u8], input_offset: usize) -> (r: (ReadOutcome, usize))
        requires
            old(self).wf(),
            !old(self).skipping,
            old(self).offsets_len <= old(self).offsets@.len(),
            input_offset <= input@.len(),
            reader::reader_view(old(self).delimiter).position + (input@.len() - input_offset)
                <= usize::MAX,
            reader::reader_view(old(self).delimiter).line + (input@.len() - input_offset)
                <= u64::MAX,
        ensures
            final(self).holds_records(),
            final(self).same_setup(old(self)),
            final(self)@.rows == old(self)@.rows,
            final(self).slots() == old(self).slots(),
            final(self).offsets_len <= final(self).offsets@.len(),
            input_offset + r.1 <= input@.len(),
            old(self).data_len <= final(self).data_len <= old(self).data_len + r.1,
            old(self).current_field <= final(self).current_field,
            r.0 is Record ==> final(self).current_field > 0 && final(self).current().ends.last()
                == final(self).current().bytes.len() && reader::reader_view(
                final(self).delimiter,
            ).position == 0,
            !(r.0 is Record) ==> final(self).wf(),
            reader::reader_view(final(self).delimiter).position <= reader::reader_view(
                old(self).delimiter,
            ).position + r.1,
            reader::reader_view(final(self).delimiter).line <= reader::reader_view(
                old(self).delimiter,
            ).line + r.1,
            final(self).has_read(
                old(self),
                input@.skip(input_offset as int),
                (old(self).data@.len() - old(self).data_len) as nat,
                (old(self).offsets@.len() - old(self).offsets_len) as nat,
                r.0,
                r.1 as nat,
            ),
    {
        let ghost before = *self;
        let ghost current = self.current();
        let (outcome, bytes_read, bytes_written, end_positions) = reader::read_record(
            &mut self.delimiter,
            input,
            input_offset,
            &mut self.data,
            self.data_len,
            &mut self.offsets,
            self.offsets_len,
        );
        proof {
            lemma_product(self.num_rows as nat, self.num_columns as nat);
            assert(self.offsets.len() <= usize::MAX);
            assert(self.data.len() <= usize::MAX);
        }
        self.current_field = self.current_field + end_positions;
        self.offsets_len = self.offsets_len + end_positions;
        self.data_len = self.data_len + bytes_written;
        proof {
            let after = self.current();
            let out = after.bytes.skip(current.bytes.len() as int);
            let ends = after.ends.skip(current.ends.len() as int);
            let read = Read { outcome, consumed: bytes_read as nat, out, ends };
            assert(out =~= self.data@.subrange(before.data_len as int, self.data_len as int));
            assert(ends =~= Seq::new(
                end_positions as nat,
                |i: int| self.offsets@[before.offsets_len + i] as nat,
            ));
            assert(after.bytes =~= current.bytes + out);
            assert(after.ends =~= current.ends + ends);
            lemma_reads_valid(
                reader::reader_view(before.delimiter),
                reader::reader_view(self.delimiter),
                input@.skip(input_offset as int),
                (before.data@.len() - before.data_len) as nat,
                (before.offsets@.len() - before.offsets_len) as nat,
                read,
                current,
                after,
            );
            lemma_rows_same(
                before.offsets@,
                self.offsets@,
                before.data@,
                self.data@,
                self.num_columns as nat,
                self.num_rows as nat,
            );
            assert(self@.rows == before@.rows);
            let view = reader::reader_view(self.delimiter);
            assert(self@ =~= model::begun(model::after_read(before@, view, read)));
            reveal(RecordDecoder::has_read);
        }
        (outcome, bytes_read)
    }

    /// Discards fields after `num_columns` from the current record
    fn truncate_current_record(&mut self)
        requires
            old(self).holds_records(),
            !old(self).skipping,
            0 < old(self).num_columns <= old(self).current_field,
            old(self).extra_column_row_count < old(self).line_number,
        ensures
            final(self).holds_records(),
            final(self).is_row(),
            final(self).same_setup(
                &(RecordDecoder {
                    extra_column_row_count: final(self).extra_column_row_count,
                    ..*old(self)
                }),
            ),
            final(self).delimiter == old(self).delimiter,
            final(self)@ == (DecoderState {
                current: old(self)@.current.cut(old(self).num_columns as nat),
                extra: old(self)@.extra + 1,
                ..old(self)@
            }),
            final(self).slots() == old(self).slots(),
            final(self).offsets_len <= final(self).offsets@.len(),
            final(self).data_len <= old(self).data_len,
    {
        let ghost before = *self;
        proof {
            lemma_product(self.num_rows as nat, self.num_columns as nat);
            assert(self.offsets.len() <= usize::MAX);
            let last = self.num_columns - 1;
            assert(self.current().ends[last] <= self.current().bytes.len());
        }
        self.extra_column_row_count = self.extra_column_row_count + 1;
        self.offsets_len = self.offsets_len - (self.current_field - self.num_columns);
        self.current_field = self.num_columns;
        self.data_len = self.record_data_start + self.offsets[self.offsets_len - 1];
        proof {
            let cut = before.current().cut(self.num_columns as nat);
            assert(self.current().ends =~= cut.ends);
            assert(self.current().bytes =~= cut.bytes);
            assert forall|i: int, j: int| 0 <= i <= j < cut.ends.len() implies cut.ends[i]
                <= #[trigger] cut.ends[j] && (#[trigger] cut.ends[i]) <= cut.bytes.len() by {
                let ends = before.current().ends;
                assert(ends[i] <= ends[j]);
                assert(ends[i] <= ends[self.num_columns - 1]);
            }
            assert(self@.rows == before@.rows);
        }
    }

    /// Adds the current record, which has the fields of a row, to the rows.
    pub fn push_row(&mut self)
        requires
            old(self).holds_records(),
            old(self).is_row(),
            old(self).line_number < usize::MAX,
            old(self).truncated_row_count <= old(self).line_number,
            old(self).extra_column_row_count <= old(self).line_number,
            reader::reader_view(old(self).delimiter).position == 0,
        ensures
            final(self).wf(),
            final(self)@ == model::push_row(old(self)@, old(self)@.current),
            final(self).layout() == old(self).layout(),
            final(self).delimiter == old(self).delimiter,
            final(self).slots() == old(self).slots() - old(self).num_columns,
            final(self).offsets_len <= final(self).offsets@.len(),
            final(self).offsets@.len() == old(self).offsets@.len(),
            final(self).data@.len() == old(self).data@.len(),
            final(self).data_len == old(self).data_len,
    {
        let ghost before = *self;
        let ghost num_columns = self.num_columns as nat;
        let ghost rows = self.num_rows as nat;
        self.skipping = false;
        self.current_field = 0;
        self.line_number = self.line_number + 1;
        self.num_rows = self.num_rows + 1;
        self.record_data_start = self.data_len;
        proof {
            lemma_row_bounds(rows, rows + 1, num_columns);
            let last = num_columns - 1;
            assert(before.current().ends[last] == self.offsets@[((rows + 1) * num_columns) as int]);
            let row = row_at(self.offsets@, self.data@, num_columns, rows);
            assert(row.ends =~= before.current().ends);
            assert(row.bytes =~= before.current().bytes);
            assert(self@.rows =~= before@.rows.push(before.current()));
            assert(self.current() =~= Record::empty());
            assert forall|i: int| 0 <= i < self.num_rows implies (
            #[trigger] self@.rows[i]).valid() by {
                if i < rows {
                    assert(before@.rows[i].valid());
                }
            }
        }
    }

    /// Completes the current record, which has ended.
    ///
    /// A record with too few fields is filled up, and one with too many is cut, where
    /// the decoder is set up to accept it.
    pub fn end_record(&mut self) -> (r: Result<(), CsvError>)
        requires
            old(self).holds_records(),
            !old(self).skipping,
            old(self).num_columns > 0,
            old(self).current_field > 0,
            old(self).current().ends.last() == old(self).current().bytes.len(),
            old(self).num_columns <= old(self).slots(),
            old(self).line_number < usize::MAX,
            old(self).truncated_row_count < old(self).line_number,
            old(self).extra_column_row_count < old(self).line_number,
            reader::reader_view(old(self).delimiter).position == 0,
        ensures
            match model::end_record(old(self).layout(), old(self)@) {
                Ok(state) => {
                    &&& r is Ok
                    &&& final(self).wf()
                    &&& final(self)@ == state
                    &&& final(self).layout() == old(self).layout()
                    &&& final(self).delimiter == old(self).delimiter
                    &&& final(self).slots() == old(self).slots() - old(self).num_columns
                    &&& final(self).offsets_len <= final(self).offsets@.len()
                    &&& final(self).offsets@.len() == old(self).offsets@.len()
                    &&& final(self).data@.len() == old(self).data@.len()
                    &&& final(self).data_len <= old(self).data_len
                },
                Err(error) => r == Err::<(), CsvError>(error) && *final(self) == *old(self),
            },
    {
        let ghost before = *self;
        if self.current_field != self.num_columns {
            if self.truncated_rows && self.current_field < self.num_columns {
                // If the number of fields is less than expected, pad with empty fields
                self.pad_current_record();
            } else if self.ignore_extra_columns && self.current_field > self.num_columns {
                self.truncate_current_record();
            } else {
                return Err(
                    CsvError::IncorrectFields {
                        line: self.line_number,
                        expected: self.num_columns,
                        got: self.current_field,
                    },
                );
            }
        }
        self.push_row();
        Ok(())
    }

    /// Makes space in the current record, which has filled `offsets` and goes on.
    ///
    /// Where extra columns are ignored, the first `num_columns` fields are kept and the
    /// rest of the record is discarded into the scratch buffers, so that offsets does
    /// not have to grow to fit fields that are thrown away.
    pub fn fields_full(&mut self) -> (r: Result<(), CsvError>)
        requires
            old(self).wf(),
            !old(self).skipping,
            old(self).ignore_extra_columns ==> old(self).num_columns <= old(self).current_field,
            old(self).offsets_len <= old(self).offsets@.len(),
        ensures
            final(self).wf(),
            final(self).layout() == old(self).layout(),
            final(self).delimiter == old(self).delimiter,
            final(self).slots() == old(self).slots(),
            final(self).offsets_len <= final(self).offsets@.len(),
            final(self).offsets@.len() == old(self).offsets@.len(),
            final(self).data_len <= old(self).data_len,
            if old(self).ignore_extra_columns {
                &&& r is Ok
                &&& final(self)@ == model::start_skipping(old(self).layout(), old(self)@)
            } else {
                &&& r == Err::<(), CsvError>(
                    model::too_many_fields(old(self).layout(), old(self)@),
                )
                &&& *final(self) == *old(self)
            },
    {
        if !self.ignore_extra_columns {
            return Err(
                CsvError::TooManyFields {
                    line: self.line_number,
                    expected: self.num_columns,
                    more_than: self.current_field,
                },
            );
        }
        self.truncate_current_record();
        self.scratch_data.resize(MIN_CAPACITY, 0);
        self.scratch_ends.resize(SKIP_ENDS_CAPACITY, 0);
        self.skipping = true;
        proof {
            let truncated = RecordDecoder { skipping: false, ..*self };
            assert(self@.rows == truncated@.rows);
            assert(self.current() == truncated.current());
        }
        Ok(())
    }

    /// Fills the current record up to `num_columns` fields.
    fn pad_current_record(&mut self)
        requires
            old(self).holds_records(),
            !old(self).skipping,
            0 < old(self).current_field < old(self).num_columns,
            old(self).current().ends.last() == old(self).current().bytes.len(),
            old(self).num_columns <= old(self).slots(),
            old(self).truncated_row_count < old(self).line_number,
        ensures
            final(self).holds_records(),
            final(self).is_row(),
            final(self)@ == (DecoderState {
                current: old(self)@.current.pad(old(self).num_columns as nat),
                truncated: old(self)@.truncated + 1,
                ..old(self)@
            }),
            final(self).layout() == old(self).layout(),
            final(self).delimiter == old(self).delimiter,
            final(self).slots() == old(self).slots(),
            final(self).offsets@.len() == old(self).offsets@.len(),
            final(self).data@.len() == old(self).data@.len(),
            final(self).data_len == old(self).data_len,
    {
        let ghost before = *self;
        let ghost current = self.current();
        proof {
            lemma_product(self.num_rows as nat, self.num_columns as nat);
            assert(self.offsets.len() <= usize::MAX);
        }
        let fill_count: usize = self.num_columns - self.current_field;
        let fill_value: usize = self.offsets[self.offsets_len - 1];
        let mut i: usize = 0;
        while i < fill_count
            invariant
                i <= fill_count,
                before.offsets_len + fill_count <= before.offsets@.len(),
                before.offsets@.len() <= usize::MAX,
                *self == (RecordDecoder { offsets: self.offsets, ..before }),
                self.offsets@.len() == before.offsets@.len(),
                forall|j: int|
                    0 <= j < before.offsets_len ==> #[trigger] self.offsets@[j]
                        == before.offsets@[j],
                forall|j: int|
                    before.offsets_len <= j < before.offsets_len + i ==> #[trigger] self.offsets@[j]
                        == fill_value,
            decreases fill_count - i,
        {
            self.offsets[self.offsets_len + i] = fill_value;
            i = i + 1;
        }
        self.offsets_len = self.offsets_len + fill_count;
        self.current_field = self.num_columns;
        self.truncated_row_count = self.truncated_row_count + 1;
        proof {
            let padded = current.pad(self.num_columns as nat);
            assert(self.current().ends =~= padded.ends);
            assert(self.current().bytes =~= padded.bytes);
            assert forall|i: int, j: int| 0 <= i <= j < padded.ends.len() implies padded.ends[i]
                <= #[trigger] padded.ends[j] && (#[trigger] padded.ends[i])
                <= padded.bytes.len() by {
                if i < current.ends.len() {
                    assert(current.ends[i] <= current.bytes.len());
                    if j < current.ends.len() {
                        assert(current.ends[i] <= current.ends[j]);
                    }
                }
            }
            lemma_rows_same(
                before.offsets@,
                self.offsets@,
                before.data@,
                self.data@,
                self.num_columns as nat,
                self.num_rows as nat,
            );
            assert(self@.rows == before@.rows);
        }
    }

    /// Reads on in a record whose remainder is discarded.
    fn skip_fields(&mut self, input: &[u8], input_offset: usize) -> (r: (ReadOutcome, usize))
        requires
            old(self).wf(),
            old(self).skipping,
            input_offset <= input@.len(),
            reader::reader_view(old(self).delimiter).position + (input@.len() - input_offset)
                <= usize::MAX,
            reader::reader_view(old(self).delimiter).line + (input@.len() - input_offset)
                <= u64::MAX,
        ensures
            final(self).wf(),
            final(self).same_setup(old(self)),
            final(self).offsets == old(self).offsets,
            final(self).offsets_len == old(self).offsets_len,
            final(self).current_field == old(self).current_field,
            final(self).data == old(self).data,
            final(self).data_len == old(self).data_len,
            input_offset + r.1 <= input@.len(),
            r.0 is Record ==> reader::reader_view(final(self).delimiter).position == 0,
            reader::reader_view(final(self).delimiter).position <= reader::reader_view(
                old(self).delimiter,
            ).position + r.1,
            reader::reader_view(final(self).delimiter).line <= reader::reader_view(
                old(self).delimiter,
            ).line + r.1,
            final(self).has_read(
                old(self),
                input@.skip(input_offset as int),
                old(self).scratch_data@.len(),
                old(self).scratch_ends@.len(),
                r.0,
                r.1 as nat,
            ),
    {
        let ghost before = *self;
        let (outcome, bytes_read, bytes_written, end_positions) = reader::read_record(
            &mut self.delimiter,
            input,
            input_offset,
            &mut self.scratch_data,
            0,
            &mut self.scratch_ends,
            0,
        );
        proof {
            let rest = input@.skip(input_offset as int);
            let view = reader::reader_view(before.delimiter);
            let bom = reader::bom_len(view.started, rest);
            let walked = rest.skip(bom as int).take(bytes_read - bom);
            model::lemma_scan_ends(view.machine, view.position, walked);
            let out = self.scratch_data@.subrange(0, 0 + bytes_written);
            let ends = Seq::new(end_positions as nat, |i: int| self.scratch_ends@[0 + i] as nat);
            let read = Read { outcome, consumed: bytes_read as nat, out, ends };
            assert(reader::reads(
                view,
                reader::reader_view(self.delimiter),
                rest,
                before.scratch_data@.len(),
                before.scratch_ends@.len(),
                read,
            ));
            assert(self@.rows == before@.rows);
            assert(self.current() == before.current());
            let after = reader::reader_view(self.delimiter);
            assert(self@ =~= model::begun(model::after_read(before@, after, read)));
            reveal(RecordDecoder::has_read);
        }
        (outcome, bytes_read)
    }

    /// Makes space for the fields of `to_read` rows.
    fn reserve_offsets(&mut self, to_read: usize)
        requires
            old(self).wf(),
            old(self).offsets_len + to_read * old(self).num_columns <= usize::MAX,
            to_read > 0,
        ensures
            final(self).wf(),
            final(self)@ == old(self)@,
            *final(self) == (RecordDecoder { offsets: final(self).offsets, ..*old(self) }),
            final(self).offsets_len <= final(self).offsets@.len(),
            final(self).slots() == old(self).current_field + to_read * old(self).num_columns,
    {
        let ghost before = *self;
        proof {
            lemma_product(to_read as nat, self.num_columns as nat);
            lemma_product(self.num_rows as nat, self.num_columns as nat);
        }
        self.offsets.resize(self.offsets_len + to_read * self.num_columns, 0);
        proof {
            assert forall|i: int| 0 <= i < self.offsets_len implies #[trigger] self.offsets@[i]
                == if i < before.offsets@.len() {
                before.offsets@[i]
            } else {
                0
            } by {
                if before.offsets@.len() < self.offsets@.len() && i < before.offsets@.len() {
                    assert(self.offsets@.subrange(0, before.offsets@.len() as int)[i]
                        == before.offsets@[i]);
                }
            }
            if before.offsets@.len() > 0 {
                lemma_rows_same(
                    before.offsets@,
                    self.offsets@,
                    before.data@,
                    self.data@,
                    self.num_columns as nat,
                    self.num_rows as nat,
                );
            } else {
                assert(self.num_rows == 0) by (nonlinear_arith)
                    requires
                        self.num_rows * self.num_columns == 0,
                        self.num_columns == 0 ==> self.num_rows == 0,
                ;
            }
            assert(self.current().ends =~= before.current().ends);
            assert(self@.rows =~= before@.rows);
        }
    }

    /// Makes space for the contents of about `rows` rows.
    fn reserve_data(&mut self, rows: usize)
        requires
            old(self).wf(),
            rows * old(self).num_columns * AVERAGE_FIELD_SIZE <= usize::MAX,
            old(self).data_len + rows * old(self).num_columns * AVERAGE_FIELD_SIZE + MIN_CAPACITY
                <= usize::MAX,
        ensures
            final(self).wf(),
            final(self)@ == old(self)@,
            *final(self) == (RecordDecoder { data: final(self).data, ..*old(self) }),
            final(self).data@.len() > final(self).data_len,
    {
        let ghost before = *self;
        proof {
            lemma_product(rows as nat, self.num_columns as nat);
        }
        let capacity: usize = rows * self.num_columns * AVERAGE_FIELD_SIZE;
        let estimated_data: usize = if capacity > MIN_CAPACITY {
            capacity
        } else {
            MIN_CAPACITY
        };
        self.data.resize(self.data_len + estimated_data, 0);
        proof {
            assert forall|i: int| 0 <= i < self.data_len implies #[trigger] self.data@[i]
                == before.data@[i] by {
                if before.data@.len() < self.data@.len() {
                    assert(self.data@.subrange(0, before.data@.len() as int)[i]
                        == before.data@[i]);
                }
            }
            lemma_rows_same(
                before.offsets@,
                self.offsets@,
                before.data@,
                self.data@,
                self.num_columns as nat,
                self.num_rows as nat,
            );
            assert(self.current().bytes =~= before.current().bytes);
            assert(self@.rows == before@.rows);
        }
    }

    /// A call of [`Self::decode`] that has come from `before` to `self`, and has
    /// read `read` rows and `input_offset` bytes, is to end as it would have from
    /// the start.
    spec fn on_course(
        &self,
        before: &Self,
        input: Seq<u8>,
        to_read: nat,
        input_offset: nat,
        read: nat,
    ) -> bool {
        let layout = before.layout();
        let bom = reader::bom_len(before@.started, input);
        let body = input.skip(bom as int);
        let rest = input.skip(input_offset as int);
        let bom_now = reader::bom_len(self@.started, rest);
        let pos = input_offset + bom_now - bom;
        let target = model::decode(layout, before@, input, to_read);
        let view = reader::reader_view(self.delimiter);
        let view_before = reader::reader_view(before.delimiter);
        &&& self.wf()
        &&& self.layout() == layout
        &&& self.offsets_len <= self.offsets@.len()
        &&& self.offsets@.len() == before.offsets_len + to_read * before.num_columns
        &&& self.slots() == before.current_field + (to_read - read) * before.num_columns
        &&& read < to_read
        &&& input_offset <= input.len()
        &&& rest.skip(bom_now as int) == body.skip(pos)
        &&& if body.len() == 0 {
            &&& input_offset == 0
            &&& read == 0
            &&& self@ == before@
            &&& target == model::after(bom, model::finish(layout, model::begun(self@)))
        } else {
            &&& 0 <= pos < body.len()
            &&& target == model::after(
                bom,
                model::run(
                    layout,
                    model::begun(self@),
                    self.slots(),
                    body,
                    (to_read - read) as nat,
                    read,
                    pos,
                ),
            )
        }
        &&& self.data_len <= before.data_len + input_offset
        &&& self.line_number <= before.line_number + input_offset
        &&& view.position <= view_before.position + input_offset
        &&& view.line <= view_before.line + input_offset
    }

    /// A call of [`Self::decode`] from `before` is to end as a run does from
    /// `state`, which comes after `read` rows and `input_offset` bytes.
    spec fn resumes(
        before: &Self,
        input: Seq<u8>,
        to_read: nat,
        input_offset: nat,
        read: nat,
        state: DecoderState,
        slots: int,
    ) -> bool {
        let layout = before.layout();
        let bom = reader::bom_len(before@.started, input);
        let body = input.skip(bom as int);
        model::decode(layout, before@, input, to_read) == model::after(
            bom,
            model::run(
                layout,
                state,
                slots,
                body,
                (to_read - read) as nat,
                read,
                input_offset - bom,
            ),
        )
    }

    /// What a read means for the outcome of a call of [`Self::decode`].
    proof fn lemma_read(
        before: &Self,
        here: &Self,
        next: &Self,
        input: Seq<u8>,
        to_read: nat,
        input_offset: nat,
        read: nat,
        out_room: nat,
        ends_room: nat,
        outcome: ReadOutcome,
        consumed: nat,
    )
        requires
            before.wf(),
            to_read > 0,
            here.on_course(before, input, to_read, input_offset, read),
            next.layout() == here.layout(),
            next.has_read(
                here,
                input.skip(input_offset as int),
                out_room,
                ends_room,
                outcome,
                consumed,
            ),
            out_room > 0 || input.skip(input_offset as int).len() > 0,
            here.skipping ==> out_room > 0 && ends_room > 0,
            !here.skipping ==> ends_room == here.offsets@.len() - here.offsets_len,
        ensures
            ({
                let layout = before.layout();
                let target = model::decode(layout, before@, input, to_read);
                let offset = input_offset + consumed;
                let bom = reader::bom_len(before@.started, input);
                let ends = input.len() == bom;
                &&& next@.started
                &&& bom <= offset <= input.len()
                &&& !ends && out_room > 0 && ends_room > 0 ==> consumed > 0
                &&& !ends && outcome is Record ==> consumed > 0
                &&& !ends && outcome is OutputFull ==> consumed > 0 || out_room == 0
                &&& input.skip(offset as int).skip(0) == input.skip(bom as int).skip(offset - bom)
                &&& match outcome {
                    ReadOutcome::InputEmpty | ReadOutcome::End => target == (Outcome::Done {
                        state: next@,
                        read,
                        consumed: offset,
                    }),
                    ReadOutcome::Record => match model::end_record(layout, next@) {
                        Ok(state) => {
                            &&& ends ==> target == (Outcome::Done {
                                state,
                                read: read + 1,
                                consumed: offset,
                            }) && offset == input.len()
                            &&& !ends ==> Self::resumes(
                                before,
                                input,
                                to_read,
                                offset,
                                read + 1,
                                state,
                                here.slots() - here.num_columns,
                            )
                        },
                        Err(error) => target == (Outcome::Failed { error, state: next@ }),
                    },
                    ReadOutcome::OutputFull => {
                        &&& !ends
                        &&& offset < input.len()
                        &&& Self::resumes(
                            before,
                            input,
                            to_read,
                            offset,
                            read,
                            next@,
                            here.slots(),
                        )
                    },
                    ReadOutcome::OutputEndsFull => if here.skipping {
                        &&& !ends
                        &&& offset < input.len()
                        &&& Self::resumes(
                            before,
                            input,
                            to_read,
                            offset,
                            read,
                            next@,
                            here.slots(),
                        )
                    } else if layout.ignore_extra_columns {
                        &&& !ends
                        &&& offset < input.len()
                        &&& next@.current.ends.len() >= here.slots()
                        &&& Self::resumes(
                            before,
                            input,
                            to_read,
                            offset,
                            read,
                            model::start_skipping(layout, next@),
                            here.slots(),
                        )
                    } else {
                        target == (Outcome::Failed {
                            error: model::too_many_fields(layout, next@),
                            state: next@,
                        })
                    },
                }
            }),
    {
        let layout = before.layout();
        let bom = reader::bom_len(before@.started, input);
        let body = input.skip(bom as int);
        let rest = input.skip(input_offset as int);
        let bom_now = reader::bom_len(here@.started, rest);
        let pos = input_offset + bom_now - bom;
        let view = reader::reader_view(here.delimiter);
        let after = reader::reader_view(next.delimiter);
        let want = (to_read - read) as nat;
        let state = model::begun(here@);
        let offset = input_offset + consumed;
        reveal(RecordDecoder::has_read);
        let got = choose|got: Read|
            {
                &&& got.outcome == outcome
                &&& got.consumed == consumed
                &&& #[trigger] reader::reads(view, after, rest, out_room, ends_room, got)
                &&& next@ == model::begun(model::after_read(here@, after, got))
            };
        lemma_fewer_rows(want, to_read, before.num_columns as nat);
        lemma_product(here.num_rows as nat, here.num_columns as nat);
        assert(body.skip(pos).len() == body.len() - pos);
        if body.len() > 0 {
            if out_room > 0 && ends_room > 0 {
                model::lemma_reads_run(
                    layout,
                    state,
                    here.slots(),
                    body,
                    want,
                    read,
                    pos,
                    view,
                    after,
                    rest,
                    out_room,
                    ends_room,
                    got,
                );
            }
            assert(next@ =~= model::after_read(state, after, got));
            if got.outcome is OutputEndsFull && !here.skipping {
                model::lemma_run_full(
                    layout,
                    next@,
                    here.slots(),
                    body,
                    want,
                    read,
                    offset - bom,
                );
            }
        }
        assert(input.skip(offset as int).skip(0) =~= body.skip(offset - bom));
        assert(next@.current.bytes =~= model::after_read(state, after, got).current.bytes);
        if body.len() == 0 {
            let current = state.current;
            if got.outcome is Record {
                if !here.skipping {
                    assert(next@.current.bytes =~= current.bytes);
                    assert(next@.current.ends =~= current.ends.push(current.bytes.len()));
                }
            } else if !here.skipping {
                assert(next@.current.bytes =~= current.bytes);
                assert(next@.current.ends =~= current.ends);
            }
        }
    }

    /// Decodes records from `input` returning the number of records and bytes read
    ///
    /// Note: this expects to be called with an empty `input` to signal EOF
    #[verifier::rlimit(50)]
    #[verifier::spinoff_prover]
    pub fn decode(&mut self, input: &[u8], to_read: usize) -> (r: Result<(usize, usize), CsvError>)
        requires
            old(self).wf(),
            to_read > 0 ==> old(self).has_room(input@.len(), to_read as nat),
        ensures
            match model::decode(old(self).layout(), old(self)@, input@, to_read as nat) {
                Outcome::Done { state, read, consumed } => {
                    &&& r matches Ok((records, bytes)) && records == read && bytes == consumed
                    &&& final(self).wf()
                    &&& final(self)@ == state
                },
                Outcome::Failed { error, state } => {
                    &&& r == Err::<(usize, usize), CsvError>(error)
                    &&& final(self).holds_records()
                    &&& final(self)@ == state
                    &&& error is TooManyFields ==> final(self).wf()
                },
            },
            history::leads_to(
                old(self),
                Call::Decode { input: input@, to_read: to_read as nat },
                final(self),
            ),
            final(self).layout() == old(self).layout(),
            final(self).data_len <= old(self).data_len + input@.len(),
            final(self).line_number <= old(self).line_number + input@.len() + 1,
            to_read > 0 ==> final(self).offsets_len <= final(self).offsets@.len(),
            final(self).offsets_len <= old(self).offsets_len + to_read * old(self).num_columns,
            reader::reader_view(final(self).delimiter).position <= reader::reader_view(
                old(self).delimiter,
            ).position + input@.len(),
            reader::reader_view(final(self).delimiter).line <= reader::reader_view(
                old(self).delimiter,
            ).line + input@.len(),
    {
        proof {
            lemma_product(to_read as nat, self.num_columns as nat);
        }
        if to_read == 0 {
            return Ok((0, 0));
        }
        let ghost before = *self;
        // Reserve sufficient capacity in offsets
        self.reserve_offsets(to_read);

        // The current offset into `input`
        let mut input_offset: usize = 0;

        // The number of rows decoded in this pass
        let mut read: usize = 0;

        // Whether `data` is to be enlarged before the next read
        let mut enlarge: bool = true;

        proof {
            assert(input@.skip(0) =~= input@);
            let bom = reader::bom_len(before@.started, input@);
            assert(input@.skip(bom as int).skip(0) =~= input@.skip(bom as int));
        }
        loop
            invariant
                before == *old(self),
                before.wf(),
                before.has_room(input@.len(), to_read as nat),
                to_read > 0,
                self.on_course(&before, input@, to_read as nat, input_offset as nat, read as nat),
                !enlarge && !self.skipping ==> input_offset < input@.len(),
            decreases
                    input@.len() - input_offset,
                    if self.skipping {
                        0int
                    } else if enlarge {
                        1
                    } else {
                        2
                    },
        {
            proof {
                let rows = (to_read - read) as nat;
                let num_columns = self.num_columns as nat;
                lemma_fewer_rows(rows, to_read as nat, num_columns);
            }
            let ghost from = input_offset as nat;
            if self.skipping {
                let ghost here = *self;
                let (outcome, bytes_read) = self.skip_fields(input, input_offset);
                input_offset = input_offset + bytes_read;
                enlarge = true;
                proof {
                    Self::lemma_read(
                        &before,
                        &here,
                        self,
                        input@,
                        to_read as nat,
                        from,
                        read as nat,
                        here.scratch_data@.len(),
                        here.scratch_ends@.len(),
                        outcome,
                        bytes_read as nat,
                    );
                }
                match outcome {
                    ReadOutcome::End | ReadOutcome::InputEmpty => {
                        return Ok((read, input_offset));
                    },
                    ReadOutcome::OutputFull | ReadOutcome::OutputEndsFull => {},
                    ReadOutcome::Record => {
                        self.push_row();
                        read = read + 1;
                        if read == to_read || input.len() == input_offset {
                            return Ok((read, input_offset));
                        }
                    },
                }
            } else {
                if enlarge {
                    // Reserve necessary space in output data based on best estimate
                    self.reserve_data(to_read - read);
                    enlarge = false;
                }
                let ghost here = *self;
                // Try to read a record
                let (outcome, bytes_read) = self.read_fields(input, input_offset);
                input_offset = input_offset + bytes_read;
                proof {
                    Self::lemma_read(
                        &before,
                        &here,
                        self,
                        input@,
                        to_read as nat,
                        from,
                        read as nat,
                        (here.data@.len() - here.data_len) as nat,
                        (here.offsets@.len() - here.offsets_len) as nat,
                        outcome,
                        bytes_read as nat,
                    );
                }
                match outcome {
                    ReadOutcome::End | ReadOutcome::InputEmpty => {
                        // Reached end of input
                        return Ok((read, input_offset));
                    },
                    ReadOutcome::OutputFull => {
                        // Need to allocate more capacity
                        enlarge = true;
                    },
                    ReadOutcome::OutputEndsFull => {
                        match self.fields_full() {
                            Ok(()) => {
                                enlarge = true;
                            },
                            Err(error) => {
                                return Err(error);
                            },
                        }
                    },
                    ReadOutcome::Record => {
                        match self.end_record() {
                            Ok(()) => {},
                            Err(error) => {
                                return Err(error);
                            },
                        }
                        read = read + 1;
                        // Either sufficient rows are read, or the input is exhausted and the
                        // reader would take an empty input as the end of all data
                        if read == to_read || input.len() == input_offset {
                            return Ok((read, input_offset));
                        }
                    },
                }
            }
        }
    }

    /// Returns the current number of buffered records
    pub fn len(&self) -> (n: usize)
        ensures
            n == self.num_rows,
            n == self@.rows.len(),
    {
        self.num_rows
    }

    /// Returns true if the decoder is empty
    pub fn is_empty(&self) -> (empty: bool)
        ensures
            empty == (self@.rows.len() == 0),
    {
        self.num_rows == 0
    }

    /// Returns the number of rows padded because they had fewer fields than expected
    ///
    /// Cumulative across [`Self::flush`] calls, reset by [`Self::clear`]
    pub fn truncated_row_count(&self) -> (n: usize)
        ensures
            n == self@.truncated,
    {
        self.truncated_row_count
    }

    /// Returns the number of rows that had trailing fields discarded because they had
    /// more fields than expected
    ///
    /// Cumulative across [`Self::flush`] calls, reset by [`Self::clear`]
    pub fn extra_column_row_count(&self) -> (n: usize)
        ensures
            n == self@.extra,
    {
        self.extra_column_row_count
    }

    /// Clears the current contents of the decoder
    ///
    /// Preserves an in-progress record while discarding complete buffered rows, and
    /// with them the counts of those that were padded or truncated
    pub fn clear(&mut self)
        requires
            old(self).wf(),
            old(self).offsets_len <= old(self).offsets@.len(),
        ensures
            final(self).wf(),
            final(self)@ == (DecoderState {
                rows: Seq::empty(),
                truncated: 0,
                extra: 0,
                ..old(self)@
            }),
            final(self).layout() == old(self).layout(),
            final(self).delimiter == old(self).delimiter,
            final(self).offsets@.len() == old(self).offsets@.len(),
            history::leads_to(old(self), Call::Clear, final(self)),
            final(self).offsets_len == 1 + old(self).current_field,
            final(self).data_len == old(self).data_len - old(self).record_data_start,
    {
        let ghost before = *self;
        proof {
            lemma_product(self.num_rows as nat, self.num_columns as nat);
            assert(self.offsets.len() <= usize::MAX);
        }
        // `record_data_start` marks the start of the current record, and every field
        // decoded for it so far occupies the tail of `offsets`
        move_to_front(&mut self.data, self.record_data_start, self.data_len, 0);
        self.data_len = self.data_len - self.record_data_start;
        self.record_data_start = 0;

        let current_offsets_start: usize = self.offsets_len - self.current_field;
        move_to_front(&mut self.offsets, current_offsets_start, self.offsets_len, 1);
        self.offsets_len = self.current_field + 1;
        self.num_rows = 0;
        // The rows counted so far are being discarded along with the buffered data,
        // so they must not be reported as padded or truncated
        self.truncated_row_count = 0;
        self.extra_column_row_count = 0;
        proof {
            assert(self@.current.bytes =~= before@.current.bytes);
            assert(self@.current.ends =~= before@.current.ends);
            assert(self@.rows =~= Seq::empty());
        }
    }
}

/// Copies the elements from `start` up to `end` to where `to` is, which is not
/// behind `start`.
fn move_to_front<T: Copy>(elements: &mut Vec<T>, start: usize, end: usize, to: usize)
    requires
        to <= start <= end <= old(elements)@.len(),
    ensures
        final(elements)@.len() == old(elements)@.len(),
        forall|i: int|
            0 <= i < to || to + (end - start) <= i < old(elements)@.len()
                ==> #[trigger] final(elements)@[i] == old(elements)@[i],
        forall|i: int|
            to <= i < to + (end - start) ==> #[trigger] final(elements)@[i] == old(
                elements,
            )@[start + (i - to)],
{
    let ghost before = elements@;
    let mut i: usize = 0;
    while i < end - start
        invariant
            to <= start <= end <= before.len(),
            before == old(elements)@,
            elements@.len() == before.len(),
            0 <= i <= end - start,
            forall|j: int|
                0 <= j < to || to + i <= j < before.len() ==> #[trigger] elements@[j] == before[j],
            forall|j: int|
                to <= j < to + i ==> #[trigger] elements@[j] == before[start + (j - to)],
        decreases end - start - i,
    {
        elements[to + i] = elements[start + i];
        i = i + 1;
    }
}

} // verus!
