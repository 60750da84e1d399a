//! The errors a request to the server can meet.
use vstd::prelude::*;
use crate::store::StoreSerError;
use crate::values::ValueSerError;

verus! {

#[verifier::external_type_specification]
#[verifier::external_body]
pub struct ExIoError(std::io::Error);

/// An error answering a request.
#[derive(Debug)]
pub enum SourisError {
    /// Reading or writing a database file failed.
    IO(std::io::Error),
    /// There is no database with the name given.
    DatabaseNotFound,
    /// The database has no such key.
    KeyNotFound,
    /// A store could not be read or written.
    StoreError(StoreSerError),
    /// A value could not be read or written.
    ValueError(ValueSerError),
    /// Database names must be ASCII and must not be `meta`.
    InvalidDatabaseName,
}

impl SourisError {
    /// The HTTP status code the error is answered with: not found for a missing database or
    /// key, bad request for a name that is not allowed, and an internal error otherwise.
    pub fn status_code(&self) -> (c: u16)
        ensures
            (self is DatabaseNotFound || self is KeyNotFound) ==> c == 404,
            self is InvalidDatabaseName ==> c == 400,
            !(self is DatabaseNotFound || self is KeyNotFound || self is InvalidDatabaseName) ==> c
                == 500,
    {
        match self {
            SourisError::DatabaseNotFound | SourisError::KeyNotFound => 404,
            SourisError::InvalidDatabaseName => 400,
            _ => 500,
        }
    }
}

} // verus!
