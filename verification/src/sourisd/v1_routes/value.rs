//! The arguments of the requests about single keys.
use vstd::prelude::*;

verus! {

/// A key in a named database.
pub struct KeyAndDb {
    /// The name of the database.
    pub db_name: String,
    /// The key.
    pub key: String,
}

/// The arguments of a request that adds a key.
pub struct NewKeyArgs {
    /// The name of the database.
    pub db_name: String,
    /// The key.
    pub key: String,
    /// Whether a missing database is created for the key.
    pub create_new_database: bool,
    /// Whether the value of an existing key is replaced.
    pub overwrite_key: bool,
}

} // verus!
