use vstd::prelude::*;

verus! {

/// What can go wrong while encoding or decoding frames.
#[derive(Debug, Clone, Copy, PartialEq, Eq, Structural)]
pub enum Error {
    /// The bytes end before a frame header or its declared payload is complete.
    UnexpectedEof,
    /// The destination buffer is shorter than the declared payload length.
    BufferTooSmall,
    /// The low nibble of a type byte is not one of 0, 1, 2, 4 or 8.
    InvalidLengthClass,
    /// The declared payload length does not fit in this platform's `usize`.
    LengthOverflow,
    /// The value has a shape the format cannot carry (maps, enums, field names).
    Unsupported,
}

} // verus!
