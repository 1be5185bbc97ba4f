//! What can be wrong with a frame.

use vstd::prelude::*;

verus! {

/// Why bytes are not a frame, or why a frame cannot be made.
#[allow(inconsistent_fields)]
#[derive(Debug, Clone, Copy, PartialEq, Eq, Structural)]
pub enum WireError {
    /// The length is that of no size class.
    BadFrameLength { got: usize },
    /// The version byte is not the one this library speaks.
    UnsupportedVersion { got: u8 },
    /// The type byte names no frame type.
    UnknownFrameType { got: u8 },
    /// A part of a frame has the wrong length.
    SealedLengthMismatch { got: usize, want: usize },
    /// The payload leaves no room for the padding marker.
    PayloadTooLarge { got: usize, max: usize },
    /// The padding does not end in a marker and zeroes.
    MalformedPadding,
}

} // verus!
