//! The arguments of the requests about whole databases.
use vstd::prelude::*;

verus! {

/// The arguments of a request that creates a database.
pub struct NewDB {
    /// The name of the database.
    pub db_name: String,
    /// Whether an existing database with that name is emptied (or replaced).
    pub overwrite_existing: bool,
}

/// The arguments of a request about one database.
pub struct DbByName {
    /// The name of the database.
    pub db_name: String,
}

} // verus!
