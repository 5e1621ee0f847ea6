//! What can go wrong while a frame is decoded, one closed set of cases for
//! each direction of the protocol.

use vstd::prelude::*;
use vstd::std_specs::convert::FromSpecImpl;

use crate::text::EncodingError;

verus! {

/// `std::io::Error`, carried through untouched.
#[verifier::external_type_specification]
#[verifier::external_body]
pub struct ExIoError(std::io::Error);

/// Why no request came out of the stream.
#[derive(Debug)]
#[allow(inconsistent_fields)]
pub enum InvalidRequestError {
    /// The transport failed while bytes were fetched. The codec never raises
    /// this itself; the case is here so that one type covers the whole read path.
    IOError { source: std::io::Error },
    /// A string of the frame holds a byte of 128 or above.
    BadEncoding { source: EncodingError },
}

impl InvalidRequestError {
    /// What went wrong, in words.
    pub fn message(&self) -> (text: &'static str)
        ensures
            text@ == match self {
                InvalidRequestError::IOError { .. } => "error with underlying IO operation"@,
                InvalidRequestError::BadEncoding { .. } => {
                    "failed loading string due to bad ascii encoding"@
                },
            },
    {
        match self {
            InvalidRequestError::IOError { .. } => "error with underlying IO operation",
            InvalidRequestError::BadEncoding { .. } => {
                "failed loading string due to bad ascii encoding"
            },
        }
    }
}

impl From<std::io::Error> for InvalidRequestError {
    fn from(source: std::io::Error) -> (e: Self) {
        InvalidRequestError::IOError { source }
    }
}

impl FromSpecImpl<std::io::Error> for InvalidRequestError {
    open spec fn obeys_from_spec() -> bool {
        true
    }

    open spec fn from_spec(source: std::io::Error) -> Self {
        InvalidRequestError::IOError { source }
    }
}

impl From<EncodingError> for InvalidRequestError {
    fn from(source: EncodingError) -> (e: Self) {
        InvalidRequestError::BadEncoding { source }
    }
}

impl FromSpecImpl<EncodingError> for InvalidRequestError {
    open spec fn obeys_from_spec() -> bool {
        true
    }

    open spec fn from_spec(source: EncodingError) -> Self {
        InvalidRequestError::BadEncoding { source }
    }
}

/// Why no response came out of the stream.
#[derive(Debug)]
#[allow(inconsistent_fields)]
pub enum InvalidResponseError {
    /// The transport failed while bytes were fetched. The codec never raises
    /// this itself.
    IOError { source: std::io::Error },
    /// The status code on the wire is none of the defined ones.
    UnknownStatus { code: u32 },
    /// The payload holds a byte of 128 or above.
    BadEncoding { source: EncodingError },
}

impl InvalidResponseError {
    /// What went wrong, in words.
    pub fn message(&self) -> (text: &'static str)
        ensures
            text@ == match self {
                InvalidResponseError::IOError { .. } => "error with underlying IO operation"@,
                InvalidResponseError::UnknownStatus { .. } => "status code is not a known one"@,
                InvalidResponseError::BadEncoding { .. } => {
                    "failed loading string due to bad ascii encoding"@
                },
            },
    {
        match self {
            InvalidResponseError::IOError { .. } => "error with underlying IO operation",
            InvalidResponseError::UnknownStatus { .. } => "status code is not a known one",
            InvalidResponseError::BadEncoding { .. } => {
                "failed loading string due to bad ascii encoding"
            },
        }
    }
}

impl From<std::io::Error> for InvalidResponseError {
    fn from(source: std::io::Error) -> (e: Self) {
        InvalidResponseError::IOError { source }
    }
}

impl FromSpecImpl<std::io::Error> for InvalidResponseError {
    open spec fn obeys_from_spec() -> bool {
        true
    }

    open spec fn from_spec(source: std::io::Error) -> Self {
        InvalidResponseError::IOError { source }
    }
}

impl From<EncodingError> for InvalidResponseError {
    fn from(source: EncodingError) -> (e: Self) {
        InvalidResponseError::BadEncoding { source }
    }
}

impl FromSpecImpl<EncodingError> for InvalidResponseError {
    open spec fn obeys_from_spec() -> bool {
        true
    }

    open spec fn from_spec(source: EncodingError) -> Self {
        InvalidResponseError::BadEncoding { source }
    }
}

} // verus!
