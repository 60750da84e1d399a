//! Utilities for the format.
pub mod cursor;
