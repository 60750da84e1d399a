//! The value types that `sourisdb` knows how to serialise.
pub mod binary;
pub mod imaginary;
pub mod integer;
pub mod ts;
