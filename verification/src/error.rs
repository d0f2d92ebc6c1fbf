//! What can go wrong while a buffer is checked or rewritten.

use vstd::prelude::*;

verus! {

/// The header field that a check found to differ from what was expected.
#[derive(Clone, Copy, Debug, PartialEq, Eq, Structural)]
pub enum Field {
    /// The magic bytes that open the file.
    Signature,
    /// The version that follows the signature (GIF).
    Version,
    /// The declared length of the first chunk (PNG).
    ChunkLength,
    /// The type of the first chunk (PNG).
    ChunkType,
    /// A declared width.
    Width,
    /// A declared height.
    Height,
    /// The stored checksum (PNG).
    Checksum,
}

/// Why a buffer was rejected.
#[derive(Clone, Copy, Debug, PartialEq, Eq, Structural)]
pub enum SpoofError {
    /// The field at `offset` holds `actual` where `expected` was required.
    /// Fields of several bytes are given as the big-endian number of their
    /// bytes for signatures, and as their decoded value otherwise.
    StructuralMismatch { field: Field, offset: usize, expected: u64, actual: u64 },
    /// A scan ran off the end of the buffer before it found its target.
    ScanExhausted,
    /// The byte at `offset` opens a block that the scanner does not know.
    InvalidSegment { offset: usize },
    /// A field that has to be read or written lies partly outside the buffer.
    BoundsViolation,
    /// The encoder refused the pixel buffer.
    EncodingFailed,
}

/// The result `r` of a function that returns a buffer says what `expected`
/// says: the same error, or a buffer with the same bytes.
pub open spec fn agrees(r: Result<Vec<u8>, SpoofError>, expected: Result<Seq<u8>, SpoofError>)
    -> bool {
    match expected {
        Ok(bytes) => r matches Ok(v) && v@ == bytes,
        Err(e) => r matches Err(x) && x == e,
    }
}

} // verus!
