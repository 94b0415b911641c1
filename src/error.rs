use vstd::prelude::*;

verus! {

/// Everything that can stop a command.
#[derive(Debug, Clone, Copy, PartialEq, Eq, Structural)]
pub enum DbError {
    /// The file is shorter than a page that was asked for.
    Io,
    /// A varint runs past the end of its page.
    MalformedVarint,
    /// A record header or body does not fit what it declares.
    MalformedRecord,
    /// A page is of an unknown kind, out of range, or breaks the tree's order.
    CorruptPage,
    /// A reserved serial type, a blob in the output, or another unsupported shape.
    Unsupported,
    /// Text that is not valid UTF-8 where it had to be.
    Encoding,
    /// No table of that name.
    UnknownTable,
    /// No column of that name on the table.
    UnknownColumn,
    /// A meta-command other than `.dbinfo` and `.tables`.
    UnknownCommand,
    /// The statement is not in the supported SQL subset.
    ParseError,
}

} // verus!
