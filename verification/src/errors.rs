//! Typed errors for decoding and for encode-option validation.

use vstd::prelude::*;

verus! {

/// Relies on std::io::Error existing as a type; declared only so the error
/// enums can carry an I/O failure through unchanged.  Nothing is assumed
/// about its values.
#[verifier::external_type_specification]
#[verifier::external_body]
pub struct ExIoError(std::io::Error);

/// Errors that can be encountered while decoding.
#[derive(Debug)]
pub enum DecodeError {
    /// Fewer or more bytes than the size declared in the yEnc header or footer.
    IncompleteData {
        /// the expected size, as declared in the stream
        expected_size: usize,
        /// the actual size, as found while decoding
        actual_size: usize,
    },
    /// A control line contains unexpected characters or is incomplete.
    InvalidHeader {
        /// the control line, as lossy UTF-8 text
        line: String,
        /// the zero-based byte offset in the line where parsing failed
        position: usize,
    },
    /// The CRC-32 checksum of the decoded data is not the declared checksum.
    InvalidChecksum,
    /// An I/O error occurred.
    IoError(std::io::Error),
}

/// Errors that can be encountered when validating encode options or while
/// encoding.
#[derive(Debug)]
pub enum EncodeError {
    /// Multiple parts (parts > 1), but no part number specified.
    PartNumberMissing,
    /// Multiple parts (parts > 1), but no begin offset specified.
    PartBeginOffsetMissing,
    /// Multiple parts (parts > 1), but no end offset specified.
    PartEndOffsetMissing,
    /// Multiple parts (parts > 1), and begin offset larger than end offset.
    PartOffsetsInvalidRange,
    /// An I/O error occurred.
    IoError(std::io::Error),
}

impl From<std::io::Error> for DecodeError {
    fn from(error: std::io::Error) -> (r: DecodeError) {
        DecodeError::IoError(error)
    }
}

impl vstd::std_specs::convert::FromSpecImpl<std::io::Error> for DecodeError {
    open spec fn obeys_from_spec() -> bool {
        true
    }

    open spec fn from_spec(error: std::io::Error) -> DecodeError {
        DecodeError::IoError(error)
    }
}

impl From<std::io::Error> for EncodeError {
    fn from(error: std::io::Error) -> (r: EncodeError) {
        EncodeError::IoError(error)
    }
}

impl vstd::std_specs::convert::FromSpecImpl<std::io::Error> for EncodeError {
    open spec fn obeys_from_spec() -> bool {
        true
    }

    open spec fn from_spec(error: std::io::Error) -> EncodeError {
        EncodeError::IoError(error)
    }
}

} // verus!
