//! Slicing of comma-separated data held in memory: a contiguous range of
//! data rows, or a named subset of columns.
//!
//! The bytes are tokenised by the `csv` crate. Everything that decides which
//! rows and which fields are returned is verified against a model of what
//! that reader yields.

pub mod columns;
pub mod error;
pub mod model;
pub mod reader;
pub mod rows;

pub use crate::columns::extract_columns;
pub use crate::error::CsvSliceError;
pub use crate::rows::extract_rows;
