//! The failures that decoding and walking a database file can report.

use vstd::prelude::*;

verus! {

/// Why an operation on a database file failed.
///
/// Decoder errors carry the byte offset, counted from the start of the
/// buffer handed to the decoder, of the element that could not be decoded.
#[derive(Debug, Clone, Copy, PartialEq, Eq, Structural)]
pub enum Error {
    /// The file does not begin with the SQLite magic string.
    BadMagic,
    /// The page size in the file header is not a power of two in 512..=32768, nor 1.
    InvalidPageSize,
    /// The input ends before the element that starts at `offset` is complete.
    Truncated { offset: usize },
    /// The byte at `offset` is not one of the four B-tree page types.
    UnknownPageType { offset: usize },
    /// The record whose header starts at `offset` uses a serial type with no meaning.
    ReservedSerialType { offset: usize },
    /// The text value that starts at `offset` is not valid UTF-8.
    InvalidUtf8 { offset: usize },
    /// The cell pointer at `offset` points into the page's headers or past
    /// the end of the page.
    MisplacedCell { offset: usize },
    /// The text encoding of the file is not UTF-8.
    UnsupportedEncoding,
    /// No page of this number lies whole within the file.
    PageOutOfRange { page: u64 },
    /// A walk of a table B-tree came upon this page, which is no table page.
    NotATablePage { page: u64 },
    /// A walk of an index B-tree came upon this page, which is no index page.
    NotAnIndexPage { page: u64 },
    /// A walk went deeper than the file has pages: the pages do not form a
    /// tree.
    TooDeep,
    /// No row of the table has the row id that was looked up.
    RowNotFound { rowid: i64 },
    /// The schema names no such table.
    TableNotFound,
    /// The schema names no index on the column.
    IndexNotFound,
    /// The text is no statement of the accepted grammar.
    Syntax,
    /// A table has more rows than can be counted.
    TooManyRows,
}

impl Error {
    /// The same error as seen from a buffer in which the decoded one starts at `base`.
    pub open spec fn shifted(self, base: int) -> Error {
        match self {
            Error::Truncated { offset } => Error::Truncated { offset: (offset + base) as usize },
            Error::UnknownPageType { offset } => Error::UnknownPageType {
                offset: (offset + base) as usize,
            },
            Error::ReservedSerialType { offset } => Error::ReservedSerialType {
                offset: (offset + base) as usize,
            },
            Error::InvalidUtf8 { offset } => Error::InvalidUtf8 {
                offset: (offset + base) as usize,
            },
            Error::MisplacedCell { offset } => Error::MisplacedCell {
                offset: (offset + base) as usize,
            },
            other => other,
        }
    }

    /// The byte offset that the error carries, if it carries one.
    pub open spec fn spec_offset(self) -> Option<usize> {
        match self {
            Error::Truncated { offset } => Some(offset),
            Error::UnknownPageType { offset } => Some(offset),
            Error::ReservedSerialType { offset } => Some(offset),
            Error::InvalidUtf8 { offset } => Some(offset),
            Error::MisplacedCell { offset } => Some(offset),
            _ => None,
        }
    }

    /// Whether the offset that the error carries, if any, lies within a
    /// buffer of `len` bytes.
    pub open spec fn within(self, len: nat) -> bool {
        self.spec_offset() matches Some(o) ==> o <= len
    }

    /// Rebases the offset of a decoder error by `base` bytes.
    pub(crate) fn at(self, base: usize) -> (r: Error)
        requires
            self.spec_offset() matches Some(o) ==> o + base <= usize::MAX,
        ensures
            r == self.shifted(base as int),
    {
        match self {
            Error::Truncated { offset } => Error::Truncated { offset: offset + base },
            Error::UnknownPageType { offset } => Error::UnknownPageType { offset: offset + base },
            Error::ReservedSerialType { offset } => Error::ReservedSerialType {
                offset: offset + base,
            },
            Error::InvalidUtf8 { offset } => Error::InvalidUtf8 { offset: offset + base },
            Error::MisplacedCell { offset } => Error::MisplacedCell { offset: offset + base },
            other => other,
        }
    }
}

} // verus!
