//! What the clients of `sourisd` share: the outcome of creating an entry and the default port.
use vstd::prelude::*;

verus! {

/// The port `sourisd` listens on unless told otherwise.
pub const DEFAULT_SOURISD_PORT: u32 = 7687;

/// The text of a boolean, as sent in query strings.
pub fn bool_to_string(b: bool) -> (s: &'static str)
    ensures
        b ==> s@ == "true"@,
        !b ==> s@ == "false"@,
{
    if b {
        "true"
    } else {
        "false"
    }
}

/// Whether a database was created, from the status of a request that creates one: `200`
/// when one was there already, `201` when it was created. The server answers nothing else.
pub fn created_from_status(code: u16) -> (r: Option<bool>)
    ensures
        code == 200 ==> r == Some(false),
        code == 201 ==> r == Some(true),
        code != 200 && code != 201 ==> r is None,
{
    if code == 200 {
        Some(false)
    } else if code == 201 {
        Some(true)
    } else {
        None
    }
}

/// How a client reads the status of a response about a database or key.
#[derive(Debug, Copy, Clone, PartialEq, Eq, Structural)]
pub enum ResponseStatus {
    /// `410 Gone`: what was asked for is not there.
    Gone,
    /// Any other status outside `200..=299`.
    Failure,
    /// A status in `200..=299`.
    Success,
}

/// Classifies a response status: see [`ResponseStatus`].
pub fn response_status(code: u16) -> (r: ResponseStatus)
    ensures
        code == 410 ==> r == ResponseStatus::Gone,
        code != 410 && !(200 <= code <= 299) ==> r == ResponseStatus::Failure,
        200 <= code <= 299 ==> r == ResponseStatus::Success,
{
    if code == 410 {
        ResponseStatus::Gone
    } else if 200 <= code && code <= 299 {
        ResponseStatus::Success
    } else {
        ResponseStatus::Failure
    }
}

/// What happened when a key was added to a database.
#[derive(Debug, Copy, Clone, PartialEq, Eq, Structural)]
pub enum CreationResult {
    /// The key was new and the database existed.
    InsertedKeyIntoExistingDB,
    /// The key existed and was overwritten.
    OverwroteKeyInExistingDB,
    /// The key existed and was kept.
    FoundExistingKey,
    /// The database was created for the key.
    InsertedKeyIntoNewDB,
    /// There was no such database.
    UnableToFindDB,
}

impl CreationResult {
    /// A sentence describing the outcome.
    pub fn to_text(&self) -> (s: &'static str)
        ensures
            *self == CreationResult::InsertedKeyIntoExistingDB ==> s@ == "Added new key to existing database"@,
            *self == CreationResult::OverwroteKeyInExistingDB ==> s@ == "Overwrote existing key in existing database"@,
            *self == CreationResult::FoundExistingKey ==> s@ == "Found existing key in existing database, didn't overwrite"@,
            *self == CreationResult::InsertedKeyIntoNewDB ==> s@ == "Added new key to new database"@,
            *self == CreationResult::UnableToFindDB ==> s@ == "Unable to find database"@,
    {
        match self {
            CreationResult::InsertedKeyIntoExistingDB => "Added new key to existing database",
            CreationResult::OverwroteKeyInExistingDB => "Overwrote existing key in existing database",
            CreationResult::FoundExistingKey => "Found existing key in existing database, didn't overwrite",
            CreationResult::InsertedKeyIntoNewDB => "Added new key to new database",
            CreationResult::UnableToFindDB => "Unable to find database",
        }
    }
}

} // verus!
