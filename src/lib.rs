//! A typed codec for the `RowBinaryWithNamesAndTypes` format of a columnar
//! analytic database: column types and their textual form, the binary
//! encoding of rows, the header of a body and the streaming reader and
//! writer of bodies.
pub mod column_type;
pub mod composite;
pub mod compression;
pub mod cursor;
pub mod error;
pub mod insert;
pub mod leb128;
pub mod request;
pub mod row;
pub mod schema;
pub mod stream;
pub mod text;
pub mod type_laws;
pub mod type_parse;
pub mod type_text;
pub mod types;

pub use column_type::ColumnType;
pub use cursor::Bytes;
pub use error::Error;
pub use compression::Compression;
pub use leb128::WriteRowBinary;
pub use row::{Column, Row, RowAs};
pub use stream::{Stream, Step};
