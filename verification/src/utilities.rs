//! Utilities used by the serialisation formats.
pub mod bits;
pub mod cursor;
pub mod huffman;
