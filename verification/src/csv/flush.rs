//! Handing out the rows that a record decoder has buffered.

use crate::csv::error::CsvError;
use crate::csv::history;
use crate::csv::history::Call;
use crate::csv::model::{DecoderState, Record};
use crate::csv::records;
use crate::csv::records::RecordDecoder;
use crate::csv::string_records;
use crate::csv::string_records::StringRecords;
use crate::csv::text;
use vstd::prelude::*;
use vstd::string::*;
use vstd::utf8;

verus! {

/// The length of the longest prefix of `0..n` in which `p` holds throughout.
pub open spec fn holds_up_to(p: spec_fn(int) -> bool, n: nat) -> nat
    decreases n,
{
    if n == 0 {
        0
    } else {
        let shorter = holds_up_to(p, (n - 1) as nat);
        if shorter == n - 1 && p(n - 1) {
            n
        } else {
            shorter
        }
    }
}

/// Offset `i`, counted from the start of the first row.
pub open spec fn rebased(offsets: Seq<usize>, num_columns: nat, i: int) -> nat {
    if i == 0 {
        0
    } else {
        let row = (i - 1) / num_columns as int;
        records::row_start(offsets, num_columns, row as nat) + offsets[i] as nat
    }
}

/// The number of offsets, among the first `n`, in front of one that does not fit
/// into a `usize` when counted from the start of the first row.
pub open spec fn rebasable(offsets: Seq<usize>, num_columns: nat, n: nat) -> nat {
    holds_up_to(|i: int| rebased(offsets, num_columns, i) <= usize::MAX, n)
}

/// The offsets, the first `n` of them counted from the start of the first row.
pub open spec fn rebase(offsets: Seq<usize>, num_columns: nat, n: nat) -> Seq<usize> {
    Seq::new(
        offsets.len(),
        |i: int|
            if i < n {
                rebased(offsets, num_columns, i) as usize
            } else {
                offsets[i]
            },
    )
}

/// The index of the last of the first `n` offsets that is at most `limit`.
pub open spec fn last_at_most(offsets: Seq<usize>, limit: nat, n: nat) -> nat
    decreases n,
{
    if n <= 1 || offsets[n - 1] <= limit {
        (n - 1) as nat
    } else {
        last_at_most(offsets, limit, (n - 1) as nat)
    }
}

/// The end of a field, counted from the start of the first row.
proof fn lemma_rebased(offsets: Seq<usize>, num_columns: nat, row: nat, column: nat)
    requires
        column < num_columns,
    ensures
        0 <= row * num_columns,
        ({
            let i = (1 + row * num_columns + column) as int;
            rebased(offsets, num_columns, i) == records::row_start(offsets, num_columns, row)
                + offsets[i]
        }),
{
    let i = row * num_columns + column;
    assert(0 <= row * num_columns) by (nonlinear_arith);
    vstd::arithmetic::div_mod::lemma_fundamental_div_mod_converse(
        i as int,
        num_columns as int,
        row as int,
        column as int,
    );
}

/// Whether all of the first `m` offsets can be rebased shows in how many of the
/// first `n` can.
proof fn lemma_rebasable(offsets: Seq<usize>, num_columns: nat, m: nat, n: nat)
    requires
        m <= n,
    ensures
        rebasable(offsets, num_columns, m) < m ==> rebasable(offsets, num_columns, n) == rebasable(
            offsets,
            num_columns,
            m,
        ),
        rebasable(offsets, num_columns, m) <= m,
    decreases n,
{
    let p = |i: int| rebased(offsets, num_columns, i) <= usize::MAX;
    lemma_holds_up_to(p, m, n);
}

/// What ends a prefix ends it in any longer range.
proof fn lemma_holds_up_to(p: spec_fn(int) -> bool, m: nat, n: nat)
    requires
        m <= n,
    ensures
        holds_up_to(p, m) <= m,
        holds_up_to(p, m) < m ==> holds_up_to(p, n) == holds_up_to(p, m),
    decreases n,
{
    if n > 0 {
        if m < n {
            lemma_holds_up_to(p, m, (n - 1) as nat);
        } else {
            lemma_holds_up_to(p, (m - 1) as nat, (n - 1) as nat);
        }
    }
}

/// The number of offsets, among the first `n`, in front of one that lies inside
/// of a character.
pub open spec fn whole_fields(offsets: Seq<usize>, bytes: Seq<u8>, n: nat) -> nat {
    holds_up_to(|i: int| utf8::is_char_boundary(bytes, offsets[i] as int), n)
}

proof fn lemma_row_of(idx: nat, rows: nat, num_columns: nat)
    requires
        num_columns > 0,
        idx <= rows * num_columns,
    ensures
        0 <= idx / num_columns <= rows,
        0 <= idx % num_columns < num_columns,
{
    assert(0 <= idx / num_columns <= rows) by (nonlinear_arith)
        requires
            num_columns > 0,
            0 <= idx <= rows * num_columns,
    ;
}

/// Every field of `row` is text.
pub open spec fn is_text(row: Record) -> bool {
    forall|i: int| 0 <= i < row.ends.len() ==> utf8::valid_utf8(#[trigger] row.field(i))
}

/// Text stays in one piece when text follows, and so do its characters.
proof fn lemma_text_and_text(a: Seq<u8>, b: Seq<u8>, i: int)
    requires
        utf8::valid_utf8(a),
        utf8::valid_utf8(b),
        0 <= i <= a.len(),
        utf8::is_char_boundary(a, i),
    ensures
        utf8::valid_utf8(a + b),
        utf8::is_char_boundary(a + b, i),
{
    utf8::valid_utf8_concat(a, b);
    if i < a.len() {
        utf8::is_char_boundary_iff_not_is_continuation_byte(a, i);
        utf8::is_char_boundary_iff_not_is_continuation_byte(a + b, i);
    } else if b.len() > 0 {
        utf8::is_char_boundary_start_end_of_seq(b);
        utf8::is_char_boundary_iff_not_is_continuation_byte(b, 0);
        utf8::is_char_boundary_iff_not_is_continuation_byte(a + b, i);
    } else {
        utf8::is_char_boundary_start_end_of_seq(a + b);
    }
}

/// The offsets cut `bytes` into pieces, and nothing is left over.
spec fn cuts(offsets: Seq<usize>, bytes: Seq<u8>) -> bool {
    &&& offsets.len() > 0
    &&& offsets[0] == 0
    &&& offsets.last() == bytes.len()
    &&& forall|i: int, j: int|
        0 <= i <= j < offsets.len() ==> (#[trigger] offsets[i]) <= (#[trigger] offsets[j])
}

/// The pieces of a text that is cut between characters are texts.
proof fn lemma_pieces_of_text(offsets: Seq<usize>, bytes: Seq<u8>, i: int)
    requires
        cuts(offsets, bytes),
        utf8::valid_utf8(bytes),
        string_records::delimits_fields(offsets, bytes),
        0 <= i < offsets.len() - 1,
    ensures
        utf8::valid_utf8(bytes.subrange(offsets[i] as int, offsets[i + 1] as int)),
{
    let start = offsets[i] as int;
    let end = offsets[i + 1] as int;
    string_records::lemma_boundary_of_head(bytes, start, end);
    let head = bytes.subrange(0, end);
    utf8::valid_utf8_split(head, start);
    assert(head.subrange(start, head.len() as int) =~= bytes.subrange(start, end));
}

/// Pieces that are texts make up a text that is cut between characters.
#[verifier::spinoff_prover]
#[verifier::rlimit(30)]
proof fn lemma_text_of_pieces(offsets: Seq<usize>, bytes: Seq<u8>, k: nat)
    requires
        cuts(offsets, bytes),
        k < offsets.len(),
        forall|i: int|
            0 <= i < k ==> utf8::valid_utf8(
                bytes.subrange(#[trigger] offsets[i] as int, offsets[i + 1] as int),
            ),
    ensures
        utf8::valid_utf8(bytes.take(offsets[k as int] as int)),
        forall|i: int|
            0 <= i <= k ==> utf8::is_char_boundary(
                bytes.take(offsets[k as int] as int),
                #[trigger] offsets[i] as int,
            ),
    decreases k,
{
    let head = bytes.take(offsets[k as int] as int);
    if k > 0 {
        lemma_text_of_pieces(offsets, bytes, (k - 1) as nat);
        let start = offsets[k - 1] as int;
        let end = offsets[k as int] as int;
        assert(end <= offsets.last());
        let a = bytes.take(start);
        let b = bytes.subrange(start, end);
        assert(head =~= a + b);
        assert(utf8::valid_utf8(head)) by {
            utf8::is_char_boundary_start_end_of_seq(a);
            lemma_text_and_text(a, b, 0);
        }
        assert(utf8::is_char_boundary(head, end)) by {
            utf8::is_char_boundary_start_end_of_seq(head);
        }
        assert forall|i: int| 0 <= i <= k implies utf8::is_char_boundary(
            head,
            #[trigger] offsets[i] as int,
        ) by {
            if i < k {
                lemma_text_and_text(a, b, offsets[i] as int);
            }
        }
    }
}

/// A prefix is as long as the range where `p` holds throughout.
proof fn lemma_holds_throughout(p: spec_fn(int) -> bool, n: nat)
    ensures
        holds_up_to(p, n) == n <==> forall|i: int| 0 <= i < n ==> #[trigger] p(i),
    decreases n,
{
    if n > 0 {
        lemma_holds_throughout(p, (n - 1) as nat);
        lemma_holds_up_to(p, n, n);
        lemma_holds_up_to(p, (n - 1) as nat, n);
    }
}

impl RecordDecoder {
    /// The end of field `column` of row `row`, counted from the start of the
    /// first row.
    proof fn lemma_end_of_field(&self, row: nat, column: nat)
        requires
            self.wf(),
            self.is_flushable(),
            row < self.num_rows,
            column < self.num_columns,
        ensures
            ({
                let num_columns = self.num_columns as nat;
                let i = (1 + row * num_columns + column) as int;
                let start = records::row_start(self.offsets@, num_columns, row);
                let record = self@.rows[row as int];
                &&& 0 <= row * num_columns
                &&& row * num_columns + num_columns == (row + 1) * num_columns
                    <= self.num_rows * num_columns
                &&& i < self.offsets_len
                &&& rebased(self.offsets@, num_columns, i) == start + record.ends[column as int]
                &&& record.ends[column as int] <= record.bytes.len()
                &&& start + record.bytes.len() == records::row_start(
                    self.offsets@,
                    num_columns,
                    row + 1,
                )
                &&& start + record.bytes.len() <= self.record_data_start
                &&& column == num_columns - 1 ==> record.ends[column as int] == record.bytes.len()
            }),
    {
        let num_columns = self.num_columns as nat;
        records::lemma_row_bounds(row, self.num_rows as nat, num_columns);
        lemma_rebased(self.offsets@, num_columns, row, column);
        records::lemma_row_start_order(self.offsets@, num_columns, row + 1, self.num_rows as nat);
        records::lemma_row_start_order(self.offsets@, num_columns, row, row + 1);
        assert(self@.rows[row as int].valid());
    }

    /// The start of a row, counted from the start of the first row.
    proof fn lemma_start_of_row(&self, row: nat)
        requires
            self.wf(),
            self.is_flushable(),
            row <= self.num_rows,
        ensures
            0 <= row * self.num_columns < self.offsets_len,
            rebased(self.offsets@, self.num_columns as nat, row * self.num_columns)
                == records::row_start(self.offsets@, self.num_columns as nat, row),
    {
        if row > 0 {
            let column = (self.num_columns - 1) as nat;
            self.lemma_end_of_field((row - 1) as nat, column);
        } else {
            assert(0 * self.num_columns == 0) by (nonlinear_arith);
            assert(0 <= self.num_rows * self.num_columns) by (nonlinear_arith)
                requires
                    0 <= self.num_rows,
                    0 <= self.num_columns,
            ;
        }
    }

    /// The row and the column of the field in front of an offset.
    proof fn lemma_field_of_offset(&self, i: int)
        requires
            self.is_flushable(),
            0 < i < self.offsets_len,
        ensures
            ({
                let num_columns = self.num_columns as int;
                let row = (i - 1) / num_columns;
                let column = (i - 1) % num_columns;
                &&& 0 <= row < self.num_rows
                &&& 0 <= column < num_columns
                &&& i == 1 + row * num_columns + column
            }),
    {
        let num_columns = self.num_columns as int;
        let row = (i - 1) / num_columns;
        vstd::arithmetic::div_mod::lemma_fundamental_div_mod(i - 1, num_columns);
        assert(num_columns * row == row * num_columns) by (nonlinear_arith);
        assert(0 <= row < self.num_rows) by (nonlinear_arith)
            requires
                num_columns > 0,
                row == (i - 1) / num_columns,
                0 <= i - 1 < self.num_rows * num_columns,
        ;
    }

    /// The offsets of complete rows can be counted from the start of the first
    /// row, and then cut the contents into the fields.
    proof fn lemma_rebased_offsets(&self)
        requires
            self.wf(),
            self.is_flushable(),
            !self.is_partial(),
        ensures
            rebasable(self.offsets@, self.num_columns as nat, self.offsets_len as nat)
                == self.offsets_len,
            cuts(
                self.rebased_offsets().take(self.offsets_len as int),
                self.data@.take(self.data_len as int),
            ),
            forall|i: int|
                0 <= i < self.offsets_len ==> #[trigger] self.rebased_offsets()[i] == rebased(
                    self.offsets@,
                    self.num_columns as nat,
                    i,
                ),
    {
        let num_columns = self.num_columns as nat;
        let n = self.offsets_len as nat;
        let p = |i: int| rebased(self.offsets@, num_columns, i) <= usize::MAX;
        assert forall|i: int| 0 <= i < n implies #[trigger] p(i) && rebased(
            self.offsets@,
            num_columns,
            i,
        ) <= self.data_len by {
            if i > 0 {
                self.lemma_field_of_offset(i);
                let row = (i - 1) / num_columns as int;
                let column = (i - 1) % num_columns as int;
                self.lemma_end_of_field(row as nat, column as nat);
            }
        }
        lemma_holds_throughout(p, n);
        let offsets = self.rebased_offsets();
        assert forall|i: int| 0 <= i < n implies #[trigger] offsets[i] == rebased(
            self.offsets@,
            num_columns,
            i,
        ) by {
            assert(p(i));
        }
        self.lemma_start_of_row(self.num_rows as nat);
        let cut = offsets.take(n as int);
        assert forall|i: int, j: int| 0 <= i <= j < cut.len() implies (#[trigger] cut[i])
            <= #[trigger] cut[j] by {
            if 0 < i {
                self.lemma_field_of_offset(i);
                self.lemma_field_of_offset(j);
                let row_i = ((i - 1) / num_columns as int) as nat;
                let column_i = ((i - 1) % num_columns as int) as nat;
                let row_j = ((j - 1) / num_columns as int) as nat;
                let column_j = ((j - 1) % num_columns as int) as nat;
                self.lemma_end_of_field(row_i, column_i);
                self.lemma_end_of_field(row_j, column_j);
                if row_i < row_j {
                    records::lemma_row_start_order(self.offsets@, num_columns, row_i + 1, row_j);
                } else if row_i > row_j {
                    assert(row_j * num_columns + num_columns <= row_i * num_columns)
                        by (nonlinear_arith)
                        requires
                            row_j + 1 <= row_i,
                    ;
                } else {
                    let ends = self@.rows[row_i as int].ends;
                    assert(self@.rows[row_i as int].valid());
                    assert(ends[column_i as int] <= ends[column_j as int]);
                }
            }
        }
    }

    /// A field that is cut out of the contents is the field of the row.
    proof fn lemma_field(&self, row: nat, column: nat)
        requires
            self.wf(),
            self.is_flushable(),
            !self.is_partial(),
            row < self.num_rows,
            column < self.num_columns,
        ensures
            ({
                let i = row * self.num_columns + column;
                let offsets = self.rebased_offsets();
                &&& 0 <= i < self.offsets_len - 1
                &&& self.data@.take(self.data_len as int).subrange(
                    offsets[i] as int,
                    offsets[i + 1] as int,
                ) == self@.rows[row as int].field(column as int)
            }),
    {
        let record = self@.rows[row as int];
        let i = row * self.num_columns + column;
        self.lemma_rebased_offsets();
        self.lemma_end_of_field(row, column);
        if column > 0 {
            self.lemma_end_of_field(row, (column - 1) as nat);
            assert(record.valid());
            assert(record.ends[column - 1] <= record.ends[column as int]);
        } else {
            self.lemma_start_of_row(row);
        }
        let offsets = self.rebased_offsets();
        assert(self.data@.take(self.data_len as int).subrange(
            offsets[i] as int,
            offsets[i + 1] as int,
        ) =~= record.field(column as int));
    }

    /// A decoder can be flushed if and only if it is not part way through a
    /// record and all fields are text.
    pub proof fn lemma_flush_accepts_text(&self)
        requires
            self.wf(),
            self.is_flushable(),
        ensures
            self.flush_error() is None <==> !self.is_partial() && forall|row: int|
                0 <= row < self.num_rows ==> is_text(#[trigger] self@.rows[row]),
            self.flush_error() != Some(CsvError::OffsetOverflow),
    {
        if !self.is_partial() {
            let n = self.offsets_len as nat;
            let bytes = self.data@.take(self.data_len as int);
            let offsets = self.rebased_offsets();
            let cut = offsets.take(n as int);
            let p = |i: int| utf8::is_char_boundary(bytes, offsets[i] as int);
            self.lemma_rebased_offsets();
            lemma_holds_throughout(p, n);
            lemma_holds_up_to(p, n, n);
            if self.flush_error() is None {
                assert forall|i: int| 0 <= i < cut.len() implies utf8::is_char_boundary(
                    bytes,
                    #[trigger] cut[i] as int,
                ) by {
                    assert(p(i));
                }
                assert forall|row: int| 0 <= row < self.num_rows implies is_text(
                    #[trigger] self@.rows[row],
                ) by {
                    let record = self@.rows[row];
                    assert forall|column: int|
                        0 <= column < record.ends.len() implies utf8::valid_utf8(
                        #[trigger] record.field(column),
                    ) by {
                        self.lemma_field(row as nat, column as nat);
                        lemma_pieces_of_text(cut, bytes, row * self.num_columns + column);
                    }
                }
            }
            if forall|row: int| 0 <= row < self.num_rows ==> is_text(#[trigger] self@.rows[row]) {
                assert forall|i: int| 0 <= i < n - 1 implies utf8::valid_utf8(
                    bytes.subrange(#[trigger] cut[i] as int, cut[i + 1] as int),
                ) by {
                    self.lemma_field_of_offset(i + 1);
                    let row = i / self.num_columns as int;
                    let column = i % self.num_columns as int;
                    self.lemma_field(row as nat, column as nat);
                    assert(is_text(self@.rows[row]));
                    assert(utf8::valid_utf8(self@.rows[row].field(column)));
                }
                lemma_text_of_pieces(cut, bytes, (n - 1) as nat);
                assert(bytes.take(cut.last() as int) =~= bytes);
                assert forall|i: int| 0 <= i < n implies #[trigger] p(i) by {
                    assert(cut[i] == offsets[i]);
                }
            }
        }
    }
}

impl RecordDecoder {
    /// What a flush hands out and leaves behind.
    proof fn lemma_flushed(&self, after: &Self, records: &StringRecords<'_>)
        requires
            self.wf(),
            self.is_flushable(),
            self.flush_error() is None,
            records.num_columns == self.num_columns,
            records.num_rows == self.num_rows,
            records.offsets@ == self.rebased_offsets().take(self.offsets_len as int),
            records.data.spec_bytes() == self.data@.take(self.data_len as int),
            *after == (RecordDecoder {
                offsets: after.offsets,
                offsets_len: 1,
                data_len: 0,
                num_rows: 0,
                record_data_start: 0,
                ..*self
            }),
            after.offsets@ == self.rebased_offsets(),
        ensures
            records.wf(),
            forall|row: int, column: int|
                0 <= row < self.num_rows && 0 <= column < self.num_columns
                    ==> #[trigger] records.field(row, column) == self@.rows[row].field(column),
            after.wf(),
            after@ == (DecoderState { rows: Seq::empty(), ..self@ }),
    {
        let n = self.offsets_len as nat;
        let bytes = self.data@.take(self.data_len as int);
        let offsets = self.rebased_offsets();
        let p = |i: int| utf8::is_char_boundary(bytes, offsets[i] as int);
        self.lemma_rebased_offsets();
        lemma_holds_throughout(p, n);
        lemma_holds_up_to(p, n, n);
        assert forall|i: int| 0 <= i < n implies utf8::is_char_boundary(
            bytes,
            #[trigger] records.offsets@[i] as int,
        ) by {
            assert(p(i));
        }
        assert forall|row: int, column: int|
            0 <= row < self.num_rows && 0 <= column < self.num_columns implies (
        #[trigger] records.field(row, column)) == self@.rows[row].field(column) by {
            self.lemma_field(row as nat, column as nat);
        }
        assert(after@.rows =~= Seq::empty());
        assert(after@.current =~= Record::empty());
        assert(self@.current =~= Record::empty());
    }
}

/// The index of the last of the first `n` offsets that is at most `limit`.
///
/// Offsets repeat where there are empty fields.
fn last_offset_at_most(offsets: &[usize], n: usize, limit: usize) -> (idx: usize)
    requires
        0 < n <= offsets@.len(),
        offsets@[0] == 0,
    ensures
        idx < n,
        idx == last_at_most(offsets@, limit as nat, n as nat),
{
    let mut idx: usize = n - 1;
    while offsets[idx] > limit
        invariant
            idx < n <= offsets@.len(),
            offsets@[0] == 0,
            last_at_most(offsets@, limit as nat, n as nat) == last_at_most(
                offsets@,
                limit as nat,
                (idx + 1) as nat,
            ),
        decreases idx,
    {
        idx = idx - 1;
    }
    idx
}

/// The number of offsets, among the first `n`, in front of one that lies inside
/// of a character.
fn count_whole_fields(offsets: &[usize], n: usize, data: &str) -> (whole: usize)
    requires
        0 < n <= offsets@.len(),
        offsets@[0] == 0,
    ensures
        0 < whole <= n,
        whole == whole_fields(offsets@, data.spec_bytes(), n as nat),
{
    let ghost p = |i: int| utf8::is_char_boundary(data.spec_bytes(), offsets@[i] as int);
    proof {
        utf8::encode_utf8_valid_utf8(data@);
        utf8::is_char_boundary_start_end_of_seq(data.spec_bytes());
        assert(holds_up_to(p, 0) == 0);
    }
    let mut whole: usize = 1;
    while whole < n
        invariant
            0 < whole <= n <= offsets@.len(),
            holds_up_to(p, whole as nat) == whole,
            p == (|i: int| utf8::is_char_boundary(data.spec_bytes(), offsets@[i] as int)),
        decreases n - whole,
    {
        if !data.is_char_boundary(offsets[whole]) {
            proof {
                lemma_holds_up_to(p, (whole + 1) as nat, n as nat);
            }
            return whole;
        }
        whole = whole + 1;
    }
    whole
}

impl RecordDecoder {
    /// The bytes of a record that is not complete have been read.
    pub open spec fn is_partial(&self) -> bool {
        self.current_field != 0 || self.data_len != self.record_data_start
    }

    /// The shape that rebasing the offsets relies on.
    pub open spec fn is_flushable(&self) -> bool {
        &&& self.num_columns > 0
        &&& self.offsets_len == 1 + self.num_rows * self.num_columns
        &&& self.offsets_len <= self.offsets@.len()
        &&& self.offsets@[0] == 0
        &&& self.data_len <= self.data@.len()
        &&& self.num_rows <= self.line_number || self.overflows()
    }

    /// An offset does not fit when counted from the start of the first row.
    pub open spec fn overflows(&self) -> bool {
        rebasable(self.offsets@, self.num_columns as nat, self.offsets_len as nat)
            < self.offsets_len
    }

    /// The field in front of offset `idx + 1` is no text.
    pub open spec fn invalid_utf8(&self, idx: nat) -> CsvError {
        CsvError::InvalidUtf8 {
            line: (self.line_number - self.num_rows + idx / self.num_columns as nat) as usize,
            field: (idx % self.num_columns as nat + 1) as usize,
        }
    }

    /// The offsets, counted from the start of the first row, as far as they fit.
    pub open spec fn rebased_offsets(&self) -> Seq<usize> {
        let n = self.offsets_len as nat;
        let num_columns = self.num_columns as nat;
        rebase(self.offsets@, num_columns, rebasable(self.offsets@, num_columns, n))
    }

    /// Counts the offsets from the start of the first row.
    ///
    /// The CSV reader has counted each from the start of its own row.
    fn rebase_offsets(&self) -> (r: Result<Vec<usize>, CsvError>)
        requires
            self.is_flushable(),
        ensures
            match r {
                Ok(rebased) => !self.overflows() && rebased@ == self.rebased_offsets(),
                Err(error) => self.overflows() && error == CsvError::OffsetOverflow,
            },
    {
        let ghost offsets = self.offsets@;
        let ghost num_columns = self.num_columns as nat;
        let ghost n = self.offsets_len as nat;
        let mut rebased: Vec<usize> = Vec::new();
        rebased.extend_from_slice(self.offsets.as_slice());
        let mut row_offset: usize = 0;
        let mut row: usize = 0;
        let mut i: usize = 1;
        proof {
            assert(rebasable(offsets, num_columns, 0) == 0);
            assert(rebasable(offsets, num_columns, 1) == 1);
            assert(rebased@ =~= rebase(offsets, num_columns, 1));
        }
        while row < self.num_rows
            invariant
                self.is_flushable(),
                offsets == self.offsets@,
                num_columns == self.num_columns,
                n == self.offsets_len,
                row <= self.num_rows,
                i == 1 + row * num_columns,
                1 <= i <= n,
                row_offset == records::row_start(offsets, num_columns, row as nat),
                rebasable(offsets, num_columns, i as nat) == i,
                rebased@ == rebase(offsets, num_columns, i as nat),
            decreases self.num_rows - row,
        {
            proof {
                records::lemma_row_bounds(row as nat, self.num_rows as nat, num_columns);
                assert(self.offsets.len() <= usize::MAX);
            }
            let offset: usize = row_offset;
            let mut column: usize = 0;
            while column < self.num_columns
                invariant
                    self.is_flushable(),
                    offsets == self.offsets@,
                    num_columns == self.num_columns,
                    n == self.offsets_len,
                    row < self.num_rows,
                    column <= num_columns,
                    i == 1 + row * num_columns + column,
                    1 + row * num_columns + num_columns <= n <= usize::MAX,
                    offset == records::row_start(offsets, num_columns, row as nat),
                    column == 0 ==> row_offset == offset,
                    column > 0 ==> row_offset == offset + offsets[i - 1],
                    rebasable(offsets, num_columns, i as nat) == i,
                    rebased@ == rebase(offsets, num_columns, i as nat),
                decreases num_columns - column,
            {
                proof {
                    lemma_rebased(offsets, num_columns, row as nat, column as nat);
                    lemma_rebasable(offsets, num_columns, (i + 1) as nat, n);
                }
                match rebased[i].checked_add(offset) {
                    Some(end) => {
                        rebased[i] = end;
                        row_offset = end;
                    },
                    None => {
                        return Err(CsvError::OffsetOverflow);
                    },
                }
                column = column + 1;
                i = i + 1;
                assert(rebased@ =~= rebase(offsets, num_columns, i as nat));
            }
            row = row + 1;
        }
        Ok(rebased)
    }

    /// What stands in the way of a flush.
    pub open spec fn flush_error(&self) -> Option<CsvError> {
        let n = self.offsets_len as nat;
        let offsets = self.rebased_offsets();
        let bytes = self.data@.take(self.data_len as int);
        let whole = whole_fields(offsets, bytes, n);
        if self.is_partial() {
            Some(CsvError::PartialRecord)
        } else if self.overflows() {
            Some(CsvError::OffsetOverflow)
        } else if !utf8::valid_utf8(bytes) {
            let limit = text::valid_up_to(bytes, bytes.len());
            Some(self.invalid_utf8(last_at_most(offsets, limit, n)))
        } else if whole < n {
            Some(self.invalid_utf8((whole - 1) as nat))
        } else {
            None
        }
    }

    /// The error for the field behind offset `idx`, which is no text.
    fn invalid_field(&self, idx: usize) -> (error: CsvError)
        requires
            self.num_columns > 0,
            self.offsets_len == 1 + self.num_rows * self.num_columns,
            self.num_rows <= self.line_number,
            idx < self.offsets_len,
        ensures
            error == self.invalid_utf8(idx as nat),
    {
        proof {
            lemma_row_of(idx as nat, self.num_rows as nat, self.num_columns as nat);
        }
        let field: usize = idx % self.num_columns + 1;
        let line_offset: usize = self.line_number - self.num_rows;
        let line: usize = line_offset + idx / self.num_columns;
        CsvError::InvalidUtf8 { line, field }
    }

    /// Flushes the current contents of the reader
    ///
    /// A flush that is refused leaves the decoder as it was
    pub fn flush(&mut self) -> (r: Result<StringRecords<'_>, CsvError>)
        requires
            old(self).is_partial() || old(self).is_flushable(),
        ensures
            match old(self).flush_error() {
                Some(error) => {
                    &&& r matches Err(e) && e == error
                    &&& *final(self) == *old(self)
                },
                None => {
                    let n = old(self).offsets_len as int;
                    &&& r matches Ok(records) && {
                        &&& records.num_columns == old(self).num_columns
                        &&& records.num_rows == old(self).num_rows
                        &&& records.offsets@ == old(self).rebased_offsets().take(n)
                        &&& records.data.spec_bytes() == old(self).data@.take(
                            old(self).data_len as int,
                        )
                    }
                    &&& *final(self) == (RecordDecoder {
                        offsets: final(self).offsets,
                        offsets_len: 1,
                        data_len: 0,
                        num_rows: 0,
                        record_data_start: 0,
                        ..*old(self)
                    })
                    &&& final(self).offsets@ == old(self).rebased_offsets()
                },
            },
            old(self).wf() ==> history::leads_to(old(self), Call::Flush, final(self)),
            old(self).wf() && old(self).is_flushable() ==> {
                &&& r matches Err(error) ==> !(error is OffsetOverflow)
                &&& r is Ok <==> !old(self).is_partial() && forall|row: int|
                    0 <= row < old(self).num_rows ==> is_text(#[trigger] old(self)@.rows[row])
                &&& r matches Ok(records) ==> {
                    &&& records.wf()
                    &&& forall|row: int, column: int|
                        0 <= row < old(self).num_rows && 0 <= column < old(self).num_columns
                            ==> #[trigger] records.field(row, column)
                            == old(self)@.rows[row].field(column)
                    &&& final(self).wf()
                    &&& final(self)@ == (DecoderState { rows: Seq::empty(), ..old(self)@ })
                }
            },
    {
        // `current_field == 0` alone does not imply a record boundary: bytes of the
        // first field of the next record may already have been consumed, in which
        // case `data_len` has advanced past the start of the current record. Flushing
        // then would drop those bytes while `csv_core` still counts them, corrupting
        // the record's field end offsets
        if self.current_field != 0 || self.data_len != self.record_data_start {
            return Err(CsvError::PartialRecord);
        }
        let ghost before = *self;
        let ghost bytes = self.data@.take(self.data_len as int);
        proof {
            if before.wf() {
                before.lemma_flush_accepts_text();
            }
        }
        // The offsets are only replaced once nothing stands in the way, so that a
        // flush which is refused leaves the decoder as it was
        let offsets = match self.rebase_offsets() {
            Ok(offsets) => offsets,
            Err(error) => {
                return Err(error);
            },
        };
        assert(self.data@.subrange(0, self.data_len as int) =~= bytes);
        // Need to truncate data to the actual amount of data read
        let data = match text::from_utf8(
            vstd::slice::slice_subrange(self.data.as_slice(), 0, self.data_len),
        ) {
            Ok(data) => data,
            Err(valid_up_to) => {
                proof {
                    text::lemma_valid_up_to(bytes, valid_up_to as nat, bytes.len());
                }
                // Not a binary search, because of empty fields
                let idx = last_offset_at_most(offsets.as_slice(), self.offsets_len, valid_up_to);
                return Err(self.invalid_field(idx));
            },
        };
        proof {
            utf8::encode_utf8_valid_utf8(data@);
        }
        // A delimiter inside of a character leaves fields that are not text, even if
        // all of the data are
        let whole = count_whole_fields(offsets.as_slice(), self.offsets_len, data);
        if whole < self.offsets_len {
            return Err(self.invalid_field(whole - 1));
        }
        let num_rows: usize = self.num_rows;
        let offsets_len: usize = self.offsets_len;

        // Reset state
        // `truncated_row_count` and `extra_column_row_count` are deliberately left alone
        // so that they accumulate across the batches produced by a single decoder
        self.offsets = offsets;
        self.offsets_len = 1;
        self.data_len = 0;
        self.num_rows = 0;
        self.record_data_start = 0;

        let records = StringRecords {
            num_columns: self.num_columns,
            num_rows,
            offsets: vstd::slice::slice_subrange(self.offsets.as_slice(), 0, offsets_len),
            data,
        };
        proof {
            if before.wf() {
                before.lemma_flushed(self, &records);
            }
        }
        Ok(records)
    }
}

/// The contents of the first `n` rows, one after the other.
pub open spec fn contents(rows: Seq<Record>, n: int) -> Seq<u8>
    decreases n,
{
    if n <= 0 {
        Seq::empty()
    } else {
        contents(rows, n - 1) + rows[n - 1].bytes
    }
}

/// The contents of the rows stop being text in this field, which is no text.
///
/// If there are no bytes that keep the contents as a whole from being text, it is the
/// first field that is none.
pub open spec fn is_first_without_text(rows: Seq<Record>, row: int, column: int) -> bool {
    let all = contents(rows, rows.len() as int);
    let start = contents(rows, row).len() + rows[row].start(column);
    let field = rows[row].field(column);
    &&& 0 <= row < rows.len()
    &&& 0 <= column < rows[row].ends.len()
    &&& !utf8::valid_utf8(field)
    &&& if utf8::valid_utf8(all) {
        forall|r: int, c: int|
            0 <= r < row && 0 <= c < rows[r].ends.len() || r == row && 0 <= c < column
                ==> utf8::valid_utf8(#[trigger] rows[r].field(c))
    } else {
        exists|end: int|
            {
                &&& start <= end < start + field.len()
                &&& utf8::valid_utf8(#[trigger] all.take(end))
                &&& forall|n: int|
                    end < n <= all.len() ==> !utf8::valid_utf8(#[trigger] all.take(n))
            }
    }
}

/// How far there is text.
proof fn lemma_valid_prefix(bytes: Seq<u8>, n: nat)
    requires
        n <= bytes.len(),
    ensures
        ({
            let end = text::valid_up_to(bytes, n);
            &&& 0 <= end <= n
            &&& utf8::valid_utf8(bytes.take(end as int))
            &&& forall|m: int| end < m <= n ==> !utf8::valid_utf8(#[trigger] bytes.take(m))
        }),
    decreases n,
{
    if n > 0 && !utf8::valid_utf8(bytes.take(n as int)) {
        lemma_valid_prefix(bytes, (n - 1) as nat);
    }
}

/// The last offset that is at most `limit`.
proof fn lemma_last_at_most(offsets: Seq<usize>, limit: nat, n: nat)
    requires
        0 < n <= offsets.len(),
        offsets[0] == 0,
    ensures
        ({
            let idx = last_at_most(offsets, limit, n);
            &&& 0 <= idx < n
            &&& offsets[idx as int] <= limit
            &&& idx + 1 < n ==> offsets[idx as int + 1] > limit
        }),
    decreases n,
{
    if n > 1 && offsets[n - 1] > limit {
        lemma_last_at_most(offsets, limit, (n - 1) as nat);
    }
}

/// Where a text in front of a text ends, there is a boundary between characters.
proof fn lemma_boundary_behind_text(bytes: Seq<u8>, end: int)
    requires
        0 <= end <= bytes.len(),
        utf8::valid_utf8(bytes),
        utf8::valid_utf8(bytes.take(end)),
    ensures
        utf8::is_char_boundary(bytes, end),
{
    let head = bytes.take(end);
    let rest = bytes.subrange(end, bytes.len() as int);
    assert(head =~= bytes.subrange(0, end));
    if !utf8::valid_utf8(rest) {
        utf8::partial_valid_partial_invalid_utf8(bytes, end);
    }
    utf8::is_char_boundary_start_end_of_seq(head);
    lemma_text_and_text(head, rest, end);
    assert(head + rest =~= bytes);
}

/// What is cut out of text in front of text, and is text itself, ends in front of
/// text again.
proof fn lemma_text_behind_text(bytes: Seq<u8>, limit: int, start: int, end: int)
    requires
        0 <= start <= limit < end <= bytes.len(),
        utf8::valid_utf8(bytes.take(limit)),
        utf8::valid_utf8(bytes.subrange(start, end)),
    ensures
        utf8::valid_utf8(bytes.take(end)),
{
    let head = bytes.take(limit);
    let field = bytes.subrange(start, end);
    if start < limit {
        utf8::is_char_boundary_start_end_of_seq(field);
        utf8::is_char_boundary_iff_not_is_continuation_byte(field, 0);
        assert(field[0] == head[start]);
        utf8::is_char_boundary_iff_not_is_continuation_byte(head, start);
    } else {
        utf8::is_char_boundary_start_end_of_seq(head);
    }
    utf8::valid_utf8_split(head, start);
    assert(head.subrange(0, start) =~= bytes.take(start));
    utf8::valid_utf8_concat(bytes.take(start), field);
    assert(bytes.take(start) + field =~= bytes.take(end));
}

/// A piece of a text that is cut between characters is a text.
proof fn lemma_piece_of_text(bytes: Seq<u8>, start: int, end: int)
    requires
        utf8::valid_utf8(bytes),
        utf8::is_char_boundary(bytes, start),
        utf8::is_char_boundary(bytes, end),
        start <= end,
    ensures
        utf8::valid_utf8(bytes.subrange(start, end)),
{
    string_records::lemma_boundary_of_head(bytes, start, end);
    let head = bytes.subrange(0, end);
    utf8::valid_utf8_split(head, start);
    assert(head.subrange(start, head.len() as int) =~= bytes.subrange(start, end));
}

/// What the end of the text at the start of `bytes` lies in is no text. Neither is
/// what starts between two characters and ends inside of one.
proof fn lemma_not_text(bytes: Seq<u8>, limit: int, start: int, end: int)
    requires
        0 <= start <= end <= bytes.len(),
        if utf8::valid_utf8(bytes) {
            utf8::is_char_boundary(bytes, start) && !utf8::is_char_boundary(bytes, end)
        } else {
            &&& start <= limit < end
            &&& utf8::valid_utf8(bytes.take(limit))
            &&& !utf8::valid_utf8(bytes.take(end))
        },
    ensures
        !utf8::valid_utf8(bytes.subrange(start, end)),
{
    let field = bytes.subrange(start, end);
    if utf8::valid_utf8(field) {
        if utf8::valid_utf8(bytes) {
            utf8::is_char_boundary_start_end_of_seq(bytes);
            lemma_piece_of_text(bytes, 0, start);
            assert(bytes.subrange(0, start) =~= bytes.take(start));
            utf8::valid_utf8_concat(bytes.take(start), field);
            assert(bytes.take(start) + field =~= bytes.take(end));
            lemma_boundary_behind_text(bytes, end);
        } else {
            lemma_text_behind_text(bytes, limit, start, end);
        }
    }
}

impl RecordDecoder {
    /// The contents of rows are the data in front of the next one.
    proof fn lemma_contents(&self, row: nat)
        requires
            self.wf(),
            self.is_flushable(),
            row <= self.num_rows,
        ensures
            ({
                let start = records::row_start(self.offsets@, self.num_columns as nat, row);
                &&& start <= self.record_data_start
                &&& contents(self@.rows, row as int) == self.data@.take(start as int)
            }),
        decreases row,
    {
        let num_columns = self.num_columns as nat;
        records::lemma_row_start_order(self.offsets@, num_columns, row, self.num_rows as nat);
        if row > 0 {
            let last = (row - 1) as nat;
            self.lemma_contents(last);
            records::lemma_row_start_order(self.offsets@, num_columns, last, row);
            let start = records::row_start(self.offsets@, num_columns, last) as int;
            let end = records::row_start(self.offsets@, num_columns, row) as int;
            assert(self.data@.take(start) + self.data@.subrange(start, end) =~= self.data@.take(
                end,
            ));
        } else {
            assert(self.data@.take(0) =~= Seq::empty());
        }
    }

    /// A field that is reported as no text is none, and none comes first.
    #[verifier::spinoff_prover]
    #[verifier::rlimit(50)]
    pub(crate) proof fn lemma_reported_field(&self)
        requires
            self.wf(),
            self.is_flushable(),
            !self.is_partial(),
            self.flush_error() is Some,
        ensures
            exists|row: int, column: int|
                {
                    &&& #[trigger] is_first_without_text(self@.rows, row, column)
                    &&& self.flush_error() == Some(
                        CsvError::InvalidUtf8 {
                            line: (self.line_number - self.num_rows + row) as usize,
                            field: (column + 1) as usize,
                        },
                    )
                },
    {
        let n = self.offsets_len as nat;
        let num_columns = self.num_columns as nat;
        let bytes = self.data@.take(self.data_len as int);
        let offsets = self.rebased_offsets();
        let cut = offsets.take(n as int);
        self.lemma_flush_accepts_text();
        self.lemma_rebased_offsets();
        self.lemma_contents(self.num_rows as nat);
        assert(contents(self@.rows, self.num_rows as int) == bytes);
        let limit = text::valid_up_to(bytes, bytes.len());
        let p = |i: int| utf8::is_char_boundary(bytes, offsets[i] as int);
        let whole = whole_fields(offsets, bytes, n);
        lemma_holds_throughout(p, n);
        lemma_holds_up_to(p, n, n);
        lemma_valid_prefix(bytes, bytes.len());
        assert(cut[0] == 0);
        assert(bytes.take(bytes.len() as int) =~= bytes);
        let idx = if !utf8::valid_utf8(bytes) {
            lemma_last_at_most(offsets, limit, n);
            last_at_most(offsets, limit, n) as int
        } else {
            lemma_longest(p, n);
            utf8::is_char_boundary_start_end_of_seq(bytes);
            if whole == 0 {
                assert(p(0));
            }
            whole - 1
        };
        assert(offsets[n - 1] == cut.last());
        assert(idx + 1 < n);
        self.lemma_field_of_offset(idx + 1);
        let row = idx / num_columns as int;
        let column = idx % num_columns as int;
        let start = offsets[idx] as int;
        let end = offsets[idx + 1] as int;
        self.lemma_field(row as nat, column as nat);
        assert(cut[idx] <= cut[idx + 1]);
        assert(cut[idx + 1] <= cut[n - 1]);
        let field = self@.rows[row].field(column);
        assert(field == bytes.subrange(start, end));
        self.lemma_contents(row as nat);
        if column > 0 {
            self.lemma_end_of_field(row as nat, (column - 1) as nat);
        } else {
            self.lemma_start_of_row(row as nat);
        }
        assert(start == contents(self@.rows, row).len() + self@.rows[row].start(column));
        assert(!utf8::valid_utf8(field)) by {
            if utf8::valid_utf8(bytes) {
                assert(p(idx) && !p(idx + 1));
            }
            lemma_not_text(bytes, limit as int, start, end);
        }
        if utf8::valid_utf8(bytes) {
            assert forall|r: int, c: int|
                0 <= r < row && 0 <= c < self@.rows[r].ends.len() || r == row && 0 <= c
                    < column implies utf8::valid_utf8(#[trigger] self@.rows[r].field(c)) by {
                let i = r * num_columns + c;
                self.lemma_field(r as nat, c as nat);
                assert(i < idx) by (nonlinear_arith)
                    requires
                        i == r * num_columns + c,
                        idx == row * num_columns + column,
                        0 <= c < num_columns,
                        0 <= column,
                        r < row || r == row && c < column,
                ;
                assert(p(i) && p(i + 1));
                assert(cut[i] <= cut[i + 1]);
                lemma_piece_of_text(bytes, offsets[i] as int, offsets[i + 1] as int);
            }
        } else {
            assert(utf8::valid_utf8(bytes.take(limit as int)));
        }
        assert(is_first_without_text(self@.rows, row, column));
    }
}

/// `p` holds in the longest prefix in which it holds, and not behind it.
proof fn lemma_longest(p: spec_fn(int) -> bool, n: nat)
    ensures
        ({
            let end = holds_up_to(p, n);
            &&& 0 <= end <= n
            &&& forall|i: int| 0 <= i < end ==> #[trigger] p(i)
            &&& end < n ==> !p(end as int)
        }),
    decreases n,
{
    if n > 0 {
        lemma_longest(p, (n - 1) as nat);
    }
}

} // verus!
