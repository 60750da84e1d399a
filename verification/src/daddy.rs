//! A second, smaller format: integers that remember the Rust type they came from, a byte
//! cursor, the value kinds and the version marker.
pub mod niches;
pub mod utilities;
pub mod values;
pub mod version;
