//! Niche-optimised value encodings.
pub mod integer;
