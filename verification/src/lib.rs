//! Cross-tabulation of delimited text: a long table of (row key, column key,
//! value) lines pivoted into a wide contingency table, byte for byte as
//! `datamash crosstab` prints it.
use vstd::prelude::*;

pub mod cells;
pub mod config;
pub mod fmtg;
pub mod laws;
pub mod layout;
pub mod numtext;
pub mod ops;
pub mod reorder;
pub mod sort;
pub mod table;
pub mod text;

pub use crate::ops::Op;

verus! {

/// How to cross-tabulate.
pub struct Config {
    /// Field separator.
    pub delim: u8,
    /// 1-based field numbers of the row (x) and column (y) keys.
    pub x: usize,
    pub y: usize,
    /// Aggregate to apply, with the 1-based field it reads. `None` counts lines.
    pub agg: Option<(Op, usize)>,
    /// Sort the input by the key fields first. Without it only consecutive
    /// runs of a key are grouped (the input is taken to be sorted already).
    pub sort: bool,
    /// The first input line holds column headers and is dropped.
    pub header_in: bool,
    /// Text of an empty cell.
    pub filler: Vec<u8>,
    /// Separator between the values of a `unique` or `collapse` cell.
    pub collapse_delim: u8,
}

/// The two option values whose text must be one byte long.
#[derive(Clone, Copy, Debug, PartialEq, Eq, Structural)]
pub enum ByteOption {
    FieldSeparator,
    CollapseDelimiter,
}

/// Why a configuration or an input was refused.
#[derive(Debug)]
pub enum CrosstabError {
    /// A separator option was not exactly one byte.
    NotSingleByte(ByteOption),
    /// The field list did not name exactly two fields.
    FieldCount,
    /// A field number was not a decimal number (the text given).
    InvalidFieldNumber(String),
    /// A field number was 0.
    ZeroFieldNumber,
    /// The operation name is not known (the name given).
    UnknownOperation(String),
    /// An operation was given without a value field.
    OpWithoutValue,
    /// A value field was given without an operation.
    ValueWithoutOp,
    /// Line `line` (1-based) has only `got` fields, and field `need` is read.
    ShortRow { need: usize, line: usize, got: usize },
    /// The value `value` of a numeric cell, on line `line`, is not a number.
    InvalidNumeric { line: usize, value: Vec<u8> },
}

} // verus!
