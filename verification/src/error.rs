//! The ways in which decoding can fail.

use vstd::prelude::*;

verus! {

/// Why a byte buffer could not be decoded into an image. Every failure is
/// final: no partial image is produced.
#[derive(Debug, PartialEq, Eq)]
pub enum DecodeError {
    /// The buffer does not begin with the PNG signature.
    MagicMismatch,
    /// A chunk declares more bytes than the buffer still holds.
    TruncatedChunk,
    /// The checksum stored with a chunk is not the checksum of its bytes.
    CrcMismatch,
    /// Image data, a palette or the end of decoding came before any header.
    MissingHeader,
    /// The header payload has the wrong size, a zero dimension, or a colour
    /// type or interlace byte that the format does not define.
    InvalidHeader,
    /// The header names a compression or filter method other than method 0.
    UnsupportedHeaderMethod,
    /// The header is valid but describes something other than 8-bit
    /// truecolour.
    UnsupportedConfiguration,
    /// The compressed stream could not be inflated; the decompressor's
    /// message is attached.
    InflateFailure(String),
    /// The inflated data is not `height` rows of the expected size.
    ScanlineSizeMismatch,
    /// A scanline begins with a filter tag outside `0..=4`.
    InvalidFilterType,
    /// A reconstructed row does not consist of whole pixels.
    InternalInvariantViolation,
}

/// A `DecodeError` as a mathematical value.
pub enum Failure {
    MagicMismatch,
    TruncatedChunk,
    CrcMismatch,
    MissingHeader,
    InvalidHeader,
    UnsupportedHeaderMethod,
    UnsupportedConfiguration,
    InflateFailure(Seq<char>),
    ScanlineSizeMismatch,
    InvalidFilterType,
    InternalInvariantViolation,
}

impl View for DecodeError {
    type V = Failure;

    open spec fn view(&self) -> Failure {
        match self {
            DecodeError::MagicMismatch => Failure::MagicMismatch,
            DecodeError::TruncatedChunk => Failure::TruncatedChunk,
            DecodeError::CrcMismatch => Failure::CrcMismatch,
            DecodeError::MissingHeader => Failure::MissingHeader,
            DecodeError::InvalidHeader => Failure::InvalidHeader,
            DecodeError::UnsupportedHeaderMethod => Failure::UnsupportedHeaderMethod,
            DecodeError::UnsupportedConfiguration => Failure::UnsupportedConfiguration,
            DecodeError::InflateFailure(cause) => Failure::InflateFailure(cause@),
            DecodeError::ScanlineSizeMismatch => Failure::ScanlineSizeMismatch,
            DecodeError::InvalidFilterType => Failure::InvalidFilterType,
            DecodeError::InternalInvariantViolation => Failure::InternalInvariantViolation,
        }
    }
}

} // verus!
