use vstd::prelude::*;

verus! {

/// The ways a command against the database file can fail. Every failure is
/// fatal to the current command; nothing is retried.
#[derive(Debug, Clone, Copy, PartialEq, Eq, Structural)]
pub enum Error {
    /// The command line lacked the database path or the command.
    MissingArgument,
    /// The command was none of the recognised forms.
    UnknownCommand,
    /// Opening, seeking or reading the file failed.
    Io,
    /// A page could not be decoded: bad page-kind byte, truncated varint,
    /// or a text field that is not UTF-8.
    MalformedPage,
    /// A SELECT referenced a table that is not in the schema.
    UnknownTable,
    /// A schema row had no integer root page, no text SQL column, or SQL
    /// that does not parse as CREATE TABLE.
    CorruptSchema,
    /// The query did not match the SELECT grammar.
    ParseError,
}

} // verus!
