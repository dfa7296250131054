//! The ways a decompression can fail. Every failure aborts the whole call;
//! no partial image is returned.

use vstd::prelude::*;

verus! {

/// A decompression failure.
#[derive(Debug, Clone, Copy, PartialEq, Eq, Structural)]
pub enum DecompressionError {
    /// A value that was decoded does not fit the image bit-depth.
    InvalidValue,
    /// An overflow occured during an arithmetic operation.
    ValueOverflow,
    /// The channel dimensions are invalid.
    InvalidDimensions,
    /// There was an attempt to decode an image with an invalid color type.
    InvalidColorType,
    /// There was an attempt to decode an image with an invalid pixel depth.
    InvalidPixelDepth,
    /// The signature of the file does not match a felics file.
    InvalidSignature,
    /// The stream ended in the middle of a field.
    Truncated,
}

} // verus!
