use vstd::prelude::*;

use crate::column_type::ColumnType;

verus! {

/// The failures that the codec, the schema check and the streams report.
#[derive(Debug)]
pub enum Error {
    /// Malformed input from the caller (a bad URL, a request that cannot be built).
    InvalidParams(String),
    /// The transport failed.
    Network(String),
    /// A byte string read into a text field is not valid UTF-8.
    InvalidUnicode,
    /// The buffer ends before the value being read; more bytes may still come.
    NotEnoughData,
    /// An enumeration byte that names no variant.
    InvalidTagEncoding(u8),
    /// The server answered with a status other than 200.
    BadResponse(String),
    /// The server announced a column type that the codec cannot represent.
    UnsupportedColumn(String),
    /// The announced column types differ from the expected ones: `schema`
    /// holds the announced types, `row` the types that the row type expects.
    WrongColumnTypes { schema: Vec<ColumnType>, row: Vec<ColumnType> },
    /// The announced column names differ from the expected ones: `schema`
    /// holds the names that the row type expects, `row` the announced names.
    WrongColumnNames { schema: Vec<String>, row: Vec<String> },
    /// A column without a name where names are required (an insert).
    MissingColumnName { row: Vec<String> },
}

} // verus!
