use vstd::prelude::*;

verus! {

/// Why an embedding or an extraction failed.
#[derive(Debug, Clone, Copy, PartialEq, Eq, Structural)]
pub enum CodecError {
    /// The payload is longer than the header's 32-bit length field.
    DataTooLong,
    /// The comment is longer than the header's 16-bit length field.
    CommentTooLong,
    /// The framed payload of `size` bytes exceeds the `max_size` bytes the
    /// carrier can hold.
    Capacity { size: usize, max_size: usize },
    /// The carrier's byte stream ended before the frame was complete.
    Truncated,
    /// The header names a format version this library does not know.
    UnknownVersion(u16),
    /// The header's comment is not valid UTF-8.
    InvalidComment,
    /// The checksum of the extracted payload differs from the header's.
    ChecksumMismatch { expected: u32, actual: u32 },
    /// The key could not be derived from the seed string.
    KeyDerivation,
}

} // verus!
