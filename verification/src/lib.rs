//! Reading, editing and writing the chunk structure of PNG files.
//!
//! A PNG stream is an eight-byte signature followed by chunks. Each chunk is a
//! big-endian length, a four-letter type, a payload of that length and a
//! CRC-32 of type and payload. This crate models the three layers (the type
//! code, the chunk, the whole stream) and proves that what it writes it can
//! read back.

pub mod error;
pub mod text;
pub mod wire;
pub mod chunk_type;
pub mod chunk;
pub mod png;
pub mod commands;
