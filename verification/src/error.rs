use vstd::prelude::*;

verus! {

/// Category of a failure while reading a wire packet.
#[derive(Clone, Copy, Debug, PartialEq, Eq, Structural)]
pub enum ErrorKind {
    /// The bytes do not form what the protocol allows.
    InvalidData,
    /// The bytes ended before the value being read was complete.
    UnexpectedEof,
}

/// A protocol failure: its category and a fixed description.
#[derive(Clone, Copy, Debug)]
pub struct WireError {
    pub kind: ErrorKind,
    pub message: &'static str,
}

pub const VARINT_TOO_LONG: &'static str = "VarInt is longer than 5 bytes";

/// The error value that `invalid_data` returns for `message`.
pub open spec fn spec_invalid_data(message: &'static str) -> WireError {
    WireError { kind: ErrorKind::InvalidData, message }
}

/// Builds an `InvalidData` error carrying `message`.
pub fn invalid_data(message: &'static str) -> (error: WireError)
    ensures
        error == spec_invalid_data(message),
{
    WireError { kind: ErrorKind::InvalidData, message }
}

/// Description of input that ended before a value was complete.
pub const UNEXPECTED_EOF: &'static str = "failed to fill whole buffer";

/// The error for input that ended too early.
pub open spec fn spec_unexpected_eof() -> WireError {
    WireError { kind: ErrorKind::UnexpectedEof, message: UNEXPECTED_EOF }
}

/// Builds the error for input that ended too early.
pub fn unexpected_eof() -> (error: WireError)
    ensures
        error == spec_unexpected_eof(),
{
    WireError { kind: ErrorKind::UnexpectedEof, message: UNEXPECTED_EOF }
}

} // verus!
