//! Bit-level buffer for unaligned packed encoding rules (UPER): a byte
//! vector that is written and read one bit at a time, most significant bit
//! first, together with the integer, length and string encodings built on it.
pub mod io;
