//! What can stop a run, stage by stage.

use vstd::prelude::*;

verus! {

/// The text is not a table: its lines disagree on the number of fields.
#[derive(Clone, Copy, Debug, PartialEq, Eq)]
pub enum ParseError {
    /// The line at this index, counted from zero, has another number of
    /// fields than the first line.
    RaggedLine { line: usize },
}

/// The table cannot carry the ten interval-pair columns.
#[derive(Clone, Copy, Debug, PartialEq, Eq)]
pub enum SchemaError {
    /// The table has this many columns, not ten.
    ColumnCount { found: usize },
    /// A coordinate of the row at this index is not a decimal integer that
    /// fits in 64 bits.
    Coordinate { row: usize },
}

/// The sample that was asked for cannot be drawn.
#[derive(Clone, Copy, Debug, PartialEq, Eq)]
pub enum SampleError {
    /// The fraction is not a number above zero and at most one.
    FractionOutOfRange,
    /// There is no row to draw from.
    EmptyTable,
    /// The table has more rows than the sampling engine can index.
    TooManyRows,
}

/// Failure of a whole run: the error of the first stage that failed.
#[derive(Clone, Copy, Debug, PartialEq, Eq)]
pub enum PipelineError {
    Parse(ParseError),
    Schema(SchemaError),
    Sample(SampleError),
}

} // verus!
