//! Parsed, UTF-8 CSV records.

use vstd::prelude::*;
use vstd::std_specs::iter::IteratorSpec;
use vstd::string::*;
use vstd::utf8;

verus! {

/// The offsets are in order, and each of them lies between two characters of
/// `text`.
pub open spec fn delimits_fields(offsets: Seq<usize>, text: Seq<u8>) -> bool {
    &&& forall|i: int, j: int|
        0 <= i <= j < offsets.len() ==> (#[trigger] offsets[i]) <= (#[trigger] offsets[j])
    &&& forall|i: int|
        0 <= i < offsets.len() ==> utf8::is_char_boundary(text, #[trigger] offsets[i] as int)
}

/// A boundary between two characters is one in a shorter text as well.
pub(crate) proof fn lemma_boundary_of_head(text: Seq<u8>, start: int, end: int)
    requires
        utf8::valid_utf8(text),
        utf8::is_char_boundary(text, start),
        utf8::is_char_boundary(text, end),
        start <= end,
    ensures
        0 <= start <= end <= text.len(),
        utf8::valid_utf8(text.subrange(0, end)),
        utf8::is_char_boundary(text.subrange(0, end), start),
{
    let head = text.subrange(0, end);
    utf8::valid_utf8_split(text, end);
    if start < end {
        utf8::is_char_boundary_iff_not_is_continuation_byte(text, start);
        utf8::is_char_boundary_iff_not_is_continuation_byte(head, start);
    } else {
        utf8::is_char_boundary_start_end_of_seq(head);
    }
}

/// A single parsed, UTF-8 CSV record
#[derive(Debug, Clone, Copy)]
pub struct StringRecord<'a> {
    pub data: &'a str,
    pub offsets: &'a [usize],
}

impl<'a> StringRecord<'a> {
    /// There is an offset on each side of each field.
    pub open spec fn wf(&self) -> bool {
        self.offsets@.len() > 0 && delimits_fields(self.offsets@, self.data.spec_bytes())
    }

    pub open spec fn num_fields(&self) -> int {
        self.offsets@.len() - 1
    }

    /// The contents of field `i`, in UTF-8.
    pub open spec fn field(&self, i: int) -> Seq<u8> {
        self.data.spec_bytes().subrange(self.offsets@[i] as int, self.offsets@[i + 1] as int)
    }

    /// The first `n` fields, with commas in between.
    pub open spec fn listed(&self, n: nat) -> Seq<char>
        decreases n,
    {
        if n == 0 {
            Seq::empty()
        } else if n == 1 {
            utf8::decode_utf8(self.field(0))
        } else {
            self.listed((n - 1) as nat) + seq![','] + utf8::decode_utf8(self.field(n - 1))
        }
    }

    /// Returns the contents of field `index`
    pub fn get(&self, index: usize) -> (text: &'a str)
        requires
            self.wf(),
            index < self.num_fields(),
        ensures
            text.spec_bytes() == self.field(index as int),
            text@ == utf8::decode_utf8(self.field(index as int)),
    {
        assert(self.offsets.len() <= usize::MAX);
        let end: usize = self.offsets[index + 1];
        let start: usize = self.offsets[index];
        proof {
            utf8::encode_utf8_valid_utf8(self.data@);
            lemma_boundary_of_head(self.data.spec_bytes(), start as int, end as int);
        }
        let (head, _) = self.data.split_at(end);
        let (_, text) = head.split_at(start);
        proof {
            assert(text.spec_bytes() =~= self.field(index as int));
            utf8::encode_utf8_decode_utf8(text@);
        }
        text
    }

    /// Returns the fields in brackets, with commas in between
    pub fn to_string(&self) -> (s: String)
        requires
            self.wf(),
        ensures
            s@ == seq!['['] + self.listed(self.num_fields() as nat) + seq![']'],
    {
        let num_fields: usize = self.offsets.len() - 1;
        proof {
            reveal_strlit("[");
            reveal_strlit(",");
            reveal_strlit("]");
        }
        let mut s: String = String::new();
        s.append("[");
        let mut i: usize = 0;
        while i < num_fields
            invariant
                self.wf(),
                num_fields == self.num_fields(),
                i <= num_fields,
                ","@ == seq![','],
                s@ == seq!['['] + self.listed(i as nat),
            decreases num_fields - i,
        {
            if i > 0 {
                s.append(",");
            }
            s.append(self.get(i));
            i = i + 1;
        }
        s.append("]");
        s
    }
}

/// A collection of parsed, UTF-8 CSV records
#[derive(Debug)]
pub struct StringRecords<'a> {
    pub num_columns: usize,
    pub num_rows: usize,
    pub offsets: &'a [usize],
    pub data: &'a str,
}

impl<'a> StringRecords<'a> {
    /// There is an offset in front of each field, and one at the end.
    pub open spec fn wf(&self) -> bool {
        &&& self.offsets@.len() == 1 + self.num_rows * self.num_columns
        &&& delimits_fields(self.offsets@, self.data.spec_bytes())
    }

    /// The contents of a field, in UTF-8.
    pub open spec fn field(&self, row: int, column: int) -> Seq<u8> {
        let i = row * self.num_columns + column;
        self.data.spec_bytes().subrange(self.offsets@[i] as int, self.offsets@[i + 1] as int)
    }

    /// `record` is row `row`.
    pub open spec fn is_record(&self, row: int, record: StringRecord<'a>) -> bool {
        &&& record.wf()
        &&& record.data == self.data
        &&& record.offsets@ == self.offsets@.subrange(
            row * self.num_columns,
            row * self.num_columns + self.num_columns + 1,
        )
        &&& record.num_fields() == self.num_columns
        &&& forall|column: int|
            0 <= column < self.num_columns ==> #[trigger] record.field(column) == self.field(
                row,
                column,
            )
    }

    fn get(&self, index: usize) -> (record: StringRecord<'a>)
        requires
            self.wf(),
            index < self.num_rows,
        ensures
            self.is_record(index as int, record),
    {
        proof {
            assert(self.offsets.len() <= usize::MAX);
            assert(index * self.num_columns + self.num_columns <= self.num_rows * self.num_columns)
                by (nonlinear_arith)
                requires
                    index + 1 <= self.num_rows,
            ;
            assert(0 <= index * self.num_columns) by (nonlinear_arith);
        }
        let field_idx: usize = index * self.num_columns;
        let record = StringRecord {
            data: self.data,
            offsets: vstd::slice::slice_subrange(
                self.offsets,
                field_idx,
                field_idx + self.num_columns + 1,
            ),
        };
        proof {
            let offsets = record.offsets@;
            assert(forall|i: int|
                0 <= i < offsets.len() ==> offsets[i] == self.offsets@[field_idx + i]);
        }
        record
    }

    /// Returns the number of records
    pub fn len(&self) -> (n: usize)
        ensures
            n == self.num_rows,
    {
        self.num_rows
    }

    /// Returns the records, from the first to the last
    pub fn iter(&self) -> (records: std::vec::IntoIter<StringRecord<'a>>)
        requires
            self.wf(),
        ensures
            records.remaining().len() == self.num_rows,
            forall|row: int|
                0 <= row < self.num_rows ==> self.is_record(
                    row,
                    #[trigger] records.remaining()[row],
                ),
    {
        let mut records: Vec<StringRecord<'a>> = Vec::new();
        let mut row: usize = 0;
        while row < self.num_rows
            invariant
                self.wf(),
                row <= self.num_rows,
                records@.len() == row,
                forall|i: int| 0 <= i < row ==> self.is_record(i, #[trigger] records@[i]),
            decreases self.num_rows - row,
        {
            records.push(self.get(row));
            row = row + 1;
        }
        records.into_iter()
    }
}

} // verus!
