//! The failures of each layer, one enum per layer. An outer layer wraps the
//! failure of the layer below it unchanged.

use vstd::prelude::*;

verus! {

/// Why four bytes, or a string, do not make a chunk type.
#[derive(Debug, Clone, Copy, PartialEq, Eq, Structural)]
pub enum ChunkTypeError {
    /// The string does not hold exactly four characters.
    WrongLength,
    /// Some byte is not an ASCII letter.
    InvalidByte,
    /// The third byte is a lowercase letter.
    ReservedBitInvalid,
}

/// Why a byte slice does not make a chunk, or a chunk's payload no text.
#[derive(Debug, Clone, Copy, PartialEq, Eq, Structural)]
pub enum ChunkError {
    /// The slice ends before the chunk does: it holds fewer than the twelve
    /// bytes of an empty chunk, or fewer payload and checksum bytes than the
    /// length field announces.
    InputTooSmall,
    /// The four type bytes are not a valid chunk type.
    ChunkType(ChunkTypeError),
    /// The stored checksum (first) is not the one computed from type and
    /// payload (second).
    CrcMismatch(u32, u32),
    /// The payload is not UTF-8.
    NotUtf8,
}

/// Why a byte slice does not make a PNG stream, or an edit cannot be made.
#[derive(Debug, Clone, Copy, PartialEq, Eq, Structural)]
pub enum PNGError {
    /// The slice is shorter than the signature.
    TooSmall,
    /// The slice does not start with the signature.
    InvalidSignature,
    /// A chunk after the signature failed to parse.
    Chunk(ChunkError),
    /// No chunk of the requested type is present.
    ChunkNotFound,
}

} // verus!
