use vstd::prelude::*;

verus! {

/// What went wrong while writing or reading a container.
#[derive(Debug, Clone, Copy, PartialEq, Eq, Structural)]
pub enum ErrorKind {
    /// The stream ended before four bytes of marker were read.
    TruncatedMagic,
    /// The first four bytes are not `SFA;`.
    InvalidMagic,
    /// The stream ended inside an entry's name or length field.
    TruncatedHeader,
    /// A length field is empty, holds a non-digit, or does not fit in `usize`.
    InvalidLength,
    /// Fewer payload bytes remain than the entry's length declares.
    TruncatedPayload,
    /// A payload is not a PNG image.
    InvalidPayload,
    /// A name to be written holds the delimiter `:`.
    InvalidName,
    /// A source's bytes are not an image in a recognised format.
    SourceUnreadable,
    /// A decoded source could not be encoded as PNG.
    EncodeFailure,
}

/// An error described by a message.
#[derive(Debug)]
pub struct Error {
    pub s: String,
}

impl Error {
    pub fn new(s: String) -> (r: Error)
        ensures
            r.s@ == s@,
    {
        Error { s }
    }
}

} // verus!
