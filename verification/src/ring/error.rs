//! Failure kinds of ring decoding.

use vstd::prelude::*;

verus! {

/// A structural defect of the decompressed ring container.
#[derive(Clone, Copy, Debug, PartialEq, Eq, Structural)]
pub enum FormatError {
    /// Fewer bytes are available than a fixed-size field, the metadata
    /// section or an assignment row needs.
    Truncated,
    /// The first four bytes are not the magic token.
    BadMagic,
    /// The version field is not 1.
    UnsupportedVersion,
    /// The metadata section is not the structured text it must be.
    BadMetadata,
    /// The partition shift is larger than 32.
    InvalidShift,
}

/// Why a ring file could not be decoded.
#[derive(Clone, Copy, Debug, PartialEq, Eq, Structural)]
pub enum RingError {
    /// The stored stream could not be decompressed.
    IoError,
    /// The stream decompressed, but its content is not a ring container.
    Format(FormatError),
}

} // verus!
