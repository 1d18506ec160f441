pub mod error;
pub mod eval;
pub mod header;
pub mod page;
pub mod reader;
pub mod sql_parser;
pub mod table;
pub mod varint;

pub use error::Error;
pub use eval::{db_info, eval, render, statement, tables, Plan};
pub use header::{DbHeader, Encoding};
pub use sql_parser::{CreateTableArg, CreateTableStatement, SelectArg, SelectStatement};
pub use table::{Record, RecordModel, Row, Table};
