//! Bit-accurate packing of fields of 1 to 64 bits into a byte buffer.
//!
//! Fields are packed most-significant bit first: the first declared field
//! takes the high bits of the first byte. A field's bit range is split into
//! per-byte segments, and each segment is read or written with an 8-bit mask.

pub mod error;
pub mod specifier;
pub mod segment;
pub mod mask;
pub mod layout;
pub mod access;
pub mod variants;
pub mod storage;
