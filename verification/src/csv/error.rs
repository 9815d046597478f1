//! What can go wrong while CSV is decoded.

use crate::decimal;
use crate::decimal::append_decimal;
use vstd::prelude::*;
use vstd::string::*;

verus! {

/// An error in CSV data, or in the order of the calls that decode it.
#[derive(Debug, PartialEq, Eq, Structural, Clone, Copy)]
pub enum CsvError {
    /// A record ended with the wrong number of fields.
    IncorrectFields { line: usize, expected: usize, got: usize },
    /// A record has more fields than there is space for.
    TooManyFields { line: usize, expected: usize, more_than: usize },
    /// A flush was asked for in the middle of a record.
    PartialRecord,
    /// The position of a field does not fit in a `usize`.
    OffsetOverflow,
    /// A field is not valid UTF-8.
    InvalidUtf8 { line: usize, field: usize },
}

impl CsvError {
    /// The message for the error.
    pub open spec fn message(self) -> Seq<char> {
        match self {
            CsvError::IncorrectFields { line, expected, got } => {
                "Csv error: incorrect number of fields for line "@ + decimal::decimal(line as nat)
                    + ", expected "@ + decimal::decimal(expected as nat) + " got "@
                    + decimal::decimal(got as nat)
            },
            CsvError::TooManyFields { line, expected, more_than } => {
                "Csv error: incorrect number of fields for line "@ + decimal::decimal(line as nat)
                    + ", expected "@ + decimal::decimal(expected as nat) + " got more than "@
                    + decimal::decimal(more_than as nat)
            },
            CsvError::PartialRecord => "Csv error: Cannot flush part way through record"@,
            CsvError::OffsetOverflow => {
                "Csv error: CSV record offsets overflowed usize while flushing"@
            },
            CsvError::InvalidUtf8 { line, field } => {
                "Csv error: Encountered invalid UTF-8 data for line "@ + decimal::decimal(
                    line as nat,
                ) + " and field "@ + decimal::decimal(field as nat)
            },
        }
    }

    /// Returns the message for the error
    pub fn to_string(&self) -> (text: String)
        ensures
            text@ == self.message(),
    {
        let mut text: String = String::new();
        match self {
            CsvError::IncorrectFields { line, expected, got } => {
                text.append("Csv error: incorrect number of fields for line ");
                append_decimal(&mut text, *line as u64);
                text.append(", expected ");
                append_decimal(&mut text, *expected as u64);
                text.append(" got ");
                append_decimal(&mut text, *got as u64);
            },
            CsvError::TooManyFields { line, expected, more_than } => {
                text.append("Csv error: incorrect number of fields for line ");
                append_decimal(&mut text, *line as u64);
                text.append(", expected ");
                append_decimal(&mut text, *expected as u64);
                text.append(" got more than ");
                append_decimal(&mut text, *more_than as u64);
            },
            CsvError::PartialRecord => {
                text.append("Csv error: Cannot flush part way through record");
            },
            CsvError::OffsetOverflow => {
                text.append("Csv error: CSV record offsets overflowed usize while flushing");
            },
            CsvError::InvalidUtf8 { line, field } => {
                text.append("Csv error: Encountered invalid UTF-8 data for line ");
                append_decimal(&mut text, *line as u64);
                text.append(" and field ");
                append_decimal(&mut text, *field as u64);
            },
        }
        text
    }
}

/// What an error says: the line, and the numbers of fields that were expected and
/// found, or the field.
pub proof fn lemma_error_text(error: CsvError, text: String)
    requires
        call_ensures(CsvError::to_string, (&error,), text),
    ensures
        match error {
            CsvError::IncorrectFields { line, expected, got } => text@
                == "Csv error: incorrect number of fields for line "@ + decimal::decimal(
                line as nat,
            ) + ", expected "@ + decimal::decimal(expected as nat) + " got "@ + decimal::decimal(
                got as nat,
            ),
            CsvError::TooManyFields { line, expected, more_than } => text@
                == "Csv error: incorrect number of fields for line "@ + decimal::decimal(
                line as nat,
            ) + ", expected "@ + decimal::decimal(expected as nat) + " got more than "@
                + decimal::decimal(more_than as nat),
            CsvError::PartialRecord => text@ == "Csv error: Cannot flush part way through record"@,
            CsvError::OffsetOverflow => text@
                == "Csv error: CSV record offsets overflowed usize while flushing"@,
            CsvError::InvalidUtf8 { line, field } => text@
                == "Csv error: Encountered invalid UTF-8 data for line "@ + decimal::decimal(
                line as nat,
            ) + " and field "@ + decimal::decimal(field as nat),
        },
{
}

} // verus!
