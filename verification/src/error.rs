//! The failures that slicing can report.

use vstd::prelude::*;

verus! {

/// Why a slice could not be produced.
#[derive(Debug, PartialEq, Eq)]
pub enum CsvSliceError {
    /// A record could not be tokenised; holds the reader's message.
    Csv(String),
    /// The input could not be opened or read; holds the system's message.
    Io(String),
    /// A requested column is absent from the header; holds its name.
    ColumnNotFound(String),
}

/// The mathematical value of a [`CsvSliceError`].
pub enum Failure {
    Csv(Seq<char>),
    Io(Seq<char>),
    ColumnNotFound(Seq<char>),
}

impl View for CsvSliceError {
    type V = Failure;

    open spec fn view(&self) -> Failure {
        match *self {
            CsvSliceError::Csv(text) => Failure::Csv(text@),
            CsvSliceError::Io(text) => Failure::Io(text@),
            CsvSliceError::ColumnNotFound(name) => Failure::ColumnNotFound(name@),
        }
    }
}

impl Failure {
    /// The line that reports this failure to a reader.
    pub open spec fn text(self) -> Seq<char> {
        match self {
            Failure::Csv(text) => "CSV error: "@ + text,
            Failure::Io(text) => "IO error: "@ + text,
            Failure::ColumnNotFound(name) => "Column not found: "@ + name,
        }
    }
}

impl CsvSliceError {
    /// Returns the line that reports this failure to a reader: the kind of
    /// failure, then the text or the name that it carries.
    pub fn message(&self) -> (line: String)
        ensures
            line@ == self@.text(),
    {
        match self {
            CsvSliceError::Csv(text) => String::from_str("CSV error: ").concat(text.as_str()),
            CsvSliceError::Io(text) => String::from_str("IO error: ").concat(text.as_str()),
            CsvSliceError::ColumnNotFound(name) => String::from_str("Column not found: ").concat(
                name.as_str(),
            ),
        }
    }
}

} // verus!
