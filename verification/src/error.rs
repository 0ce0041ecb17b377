//! Errors that end a session.

use vstd::prelude::*;

verus! {

/// Why the reader refused the bytes it was given.
#[derive(Clone, Copy, Debug, PartialEq, Eq, Structural)]
pub enum Error {
    /// Fewer than four bytes stood at the start of a buffer where an
    /// operation name was due.
    ShortOp,
    /// The four bytes where an operation name was due are none of `GET:`,
    /// `SET:` and `ECHO`.
    UnknownOp,
    /// A length field does not open with `:`.
    ExpectedColon,
    /// The bytes between the two colons of a length field are not a
    /// non-empty run of decimal digits.
    InvalidLength,
    /// A length field announces more bytes than a `usize` can count.
    LengthTooLarge,
    /// The key of a request is not valid UTF-8.
    InvalidKey,
    /// A key is longer than the store takes.
    KeyTooLong,
}

impl Error {
    /// The text of `message`.
    pub open spec fn text(self) -> Seq<char> {
        match self {
            Error::ShortOp => "error reading start of operation, buffer shorter than expected"@,
            Error::UnknownOp => "error reading start of operation, unknown operation"@,
            Error::ExpectedColon => "reading length, expected ':'"@,
            Error::InvalidLength => "length is not a decimal number"@,
            Error::LengthTooLarge => "length is too large"@,
            Error::InvalidKey => "key is invalid utf8"@,
            Error::KeyTooLong => "key is too long"@,
        }
    }

    /// A line of text for logs and for callers that print errors.
    pub fn message(&self) -> (text: String)
        ensures
            text@ == self.text(),
    {
        match self {
            Error::ShortOp => "error reading start of operation, buffer shorter than expected".to_string(),
            Error::UnknownOp => "error reading start of operation, unknown operation".to_string(),
            Error::ExpectedColon => "reading length, expected ':'".to_string(),
            Error::InvalidLength => "length is not a decimal number".to_string(),
            Error::LengthTooLarge => "length is too large".to_string(),
            Error::InvalidKey => "key is invalid utf8".to_string(),
            Error::KeyTooLong => "key is too long".to_string(),
        }
    }
}

} // verus!
