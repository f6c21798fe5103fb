//! The errors of each layer: encoding a parameter, decoding a row, and the
//! driver underneath.

use vstd::prelude::*;

verus! {

/// Why a label path could not be encoded for a parameter slot.
#[derive(Debug, PartialEq, Eq)]
pub enum EncodingError {
    /// The target type is not the hierarchical-path type.
    WrongType,
    /// The encoded value would not fit into the buffer.
    TooLarge,
    /// The string encoder of the driver failed, with its message.
    Inner(String),
}

/// Why a column of a row could not be read as the value asked for.
#[derive(Debug, Clone, Copy, PartialEq, Eq, Structural)]
pub enum DecodeFailure {
    /// The row has no column of that name.
    Missing,
    /// The column's type does not hold values of the kind asked for.
    WrongType,
    /// The column holds NULL.
    Null,
    /// The column's bytes are not a value of its type.
    Malformed,
}

/// A required field of a record could not be read from a row.
#[derive(Debug, PartialEq, Eq)]
pub struct DecodeError {
    /// The name of the column that was asked for.
    pub column: String,
    pub failure: DecodeFailure,
}

/// Why received bytes are not a label path in binary form.
#[derive(Debug, Clone, Copy, PartialEq, Eq, Structural)]
pub enum PathError {
    /// There is no version byte.
    Empty,
    /// The version byte is not 1; it is the value held.
    Version(u8),
    /// The bytes after the version byte are not UTF-8.
    Text,
    /// The text is not a sequence of labels separated by dots.
    Syntax,
}

/// A failure of the connection or of a query, as the driver reported it.
#[derive(Debug, PartialEq, Eq)]
pub struct DriverError {
    pub message: String,
}

/// A failure of a query operation, by the layer that failed.
#[derive(Debug, PartialEq, Eq)]
pub enum Error {
    Encoding(EncodingError),
    Decode(DecodeError),
    Driver(DriverError),
}

impl From<EncodingError> for Error {
    fn from(e: EncodingError) -> (r: Error)
        ensures
            r == Error::Encoding(e),
    {
        Error::Encoding(e)
    }
}

impl vstd::std_specs::convert::FromSpecImpl<EncodingError> for Error {
    open spec fn obeys_from_spec() -> bool {
        true
    }

    open spec fn from_spec(e: EncodingError) -> Error {
        Error::Encoding(e)
    }
}

impl From<DecodeError> for Error {
    fn from(e: DecodeError) -> (r: Error)
        ensures
            r == Error::Decode(e),
    {
        Error::Decode(e)
    }
}

impl vstd::std_specs::convert::FromSpecImpl<DecodeError> for Error {
    open spec fn obeys_from_spec() -> bool {
        true
    }

    open spec fn from_spec(e: DecodeError) -> Error {
        Error::Decode(e)
    }
}

impl From<DriverError> for Error {
    fn from(e: DriverError) -> (r: Error)
        ensures
            r == Error::Driver(e),
    {
        Error::Driver(e)
    }
}

impl vstd::std_specs::convert::FromSpecImpl<DriverError> for Error {
    open spec fn obeys_from_spec() -> bool {
        true
    }

    open spec fn from_spec(e: DriverError) -> Error {
        Error::Driver(e)
    }
}

} // verus!
