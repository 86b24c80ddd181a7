//! The error type of the library.

use vstd::prelude::*;

use crate::text::{extend, extend_str, from_chars, to_chars};

verus! {

/// What can go wrong. Each variant carries a human-readable detail.
#[derive(Debug, Clone, PartialEq, Eq)]
pub enum SavageError {
    /// The XML tokenizer rejected the input.
    XmlParse(String),
    /// The XML is not a usable SVG document.
    InvalidSvg(String),
    /// Path data does not follow the path grammar.
    InvalidPath(String),
    /// Bytes that should have been text are not UTF-8.
    Utf8(String),
    /// Reading or writing failed; only drivers around the library use it.
    Io(String),
}

/// Why path data was rejected. Positions count characters from the start
/// of the path data.
#[derive(Debug, Clone, Copy, PartialEq, Eq, Structural)]
pub enum PathError {
    /// Operands stand where a command letter was expected: at the start,
    /// or after a command that takes none.
    ExpectedCommand,
    /// A letter that is no path command.
    UnknownCommand(char),
    /// An operand is missing.
    ExpectedNumber,
    /// The characters from `start` to `end` do not make a number.
    InvalidNumber { start: usize, end: usize },
    /// The path data ends where an arc flag was expected.
    ExpectedFlag,
    /// Something else than `0` or `1` stands where an arc flag was expected.
    BadFlag(char),
}

impl SavageError {
    /// The words that name the kind of error.
    pub open spec fn prefix(&self) -> Seq<char> {
        match self {
            SavageError::XmlParse(_) => "XML parsing error: "@,
            SavageError::InvalidSvg(_) => "Invalid SVG: "@,
            SavageError::InvalidPath(_) => "Invalid path data: "@,
            SavageError::Utf8(_) => "UTF-8 error: "@,
            SavageError::Io(_) => "IO error: "@,
        }
    }

    /// The detail that the error carries.
    pub open spec fn detail(&self) -> Seq<char> {
        match self {
            SavageError::XmlParse(d) => d@,
            SavageError::InvalidSvg(d) => d@,
            SavageError::InvalidPath(d) => d@,
            SavageError::Utf8(d) => d@,
            SavageError::Io(d) => d@,
        }
    }

    /// The diagnostic shown to a user: what kind of error, then its detail.
    pub fn message(&self) -> (r: String)
        ensures
            r@ == self.prefix() + self.detail(),
    {
        let mut out: Vec<char> = Vec::new();
        match self {
            SavageError::XmlParse(d) => {
                extend_str(&mut out, "XML parsing error: ");
                extend(&mut out, &to_chars(d.as_str()));
            },
            SavageError::InvalidSvg(d) => {
                extend_str(&mut out, "Invalid SVG: ");
                extend(&mut out, &to_chars(d.as_str()));
            },
            SavageError::InvalidPath(d) => {
                extend_str(&mut out, "Invalid path data: ");
                extend(&mut out, &to_chars(d.as_str()));
            },
            SavageError::Utf8(d) => {
                extend_str(&mut out, "UTF-8 error: ");
                extend(&mut out, &to_chars(d.as_str()));
            },
            SavageError::Io(d) => {
                extend_str(&mut out, "IO error: ");
                extend(&mut out, &to_chars(d.as_str()));
            },
        }
        from_chars(&out)
    }
}

} // verus!
