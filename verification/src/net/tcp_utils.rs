//! The keys and action codes of the TCP protocol.
use vstd::prelude::*;

verus! {

/// The key of the action.
pub const ACTION_KEY: &'static str = "action";
/// The key of a database name.
pub const DB_NAME_KEY: &'static str = "name";
/// The key of the overwrite flag.
pub const OVERWRITE_EXISTING_DB_KEY: &'static str = "overwrite_existing";
/// The key of a key.
pub const KEY_KEY: &'static str = "key";
/// The key of a value.
pub const VALUE_KEY: &'static str = "value";
/// The key of the list of database names.
pub const GET_ALL_DB_NAMES_KEY: &'static str = "db_names";
/// The key of a database's content.
pub const ADD_DB_CONTENT_CONTENT_KEY: &'static str = "content";
/// The key of a response's status code.
pub const RESPONSE_STATUS_CODE_KEY: &'static str = "status_code";
/// The key of a response's body.
pub const RESPONSE_BODY_KEY: &'static str = "body";

/// An action a client asks the server for.
#[derive(Debug, Copy, Clone, PartialEq, Eq, Structural)]
pub enum Action {
    /// Get a database.
    GetDb,
    /// Get the names of every database.
    GetAllDbNames,
    /// Add an empty database.
    AddDatabase,
    /// Add a database with content.
    AddDatabaseWithContent,
    /// Remove a database.
    RemoveDatabase,
    /// Empty a database.
    ClearDatabase,
    /// Add a key and value.
    AddKeyValue,
    /// Remove a key.
    RemoveKeyValue,
    /// Get the value of a key.
    GetValue,
}

/// The byte of each action, in the order they are declared.
pub open spec fn action_byte(a: Action) -> u8 {
    match a {
        Action::GetDb => 0,
        Action::GetAllDbNames => 1,
        Action::AddDatabase => 2,
        Action::AddDatabaseWithContent => 3,
        Action::RemoveDatabase => 4,
        Action::ClearDatabase => 5,
        Action::AddKeyValue => 6,
        Action::RemoveKeyValue => 7,
        Action::GetValue => 8,
    }
}

impl Action {
    /// The byte that stands for this action.
    pub fn to_u8(self) -> (b: u8)
        ensures
            b == action_byte(self),
    {
        match self {
            Action::GetDb => 0,
            Action::GetAllDbNames => 1,
            Action::AddDatabase => 2,
            Action::AddDatabaseWithContent => 3,
            Action::RemoveDatabase => 4,
            Action::ClearDatabase => 5,
            Action::AddKeyValue => 6,
            Action::RemoveKeyValue => 7,
            Action::GetValue => 8,
        }
    }

    /// The action a byte stands for; `Err(())` for a byte above 8.
    pub fn try_from_u8(value: u8) -> (r: Result<Action, ()>)
        ensures
            value <= 8 <==> r is Ok,
            r matches Ok(a) ==> action_byte(a) == value,
    {
        match value {
            0 => Ok(Action::GetDb),
            1 => Ok(Action::GetAllDbNames),
            2 => Ok(Action::AddDatabase),
            3 => Ok(Action::AddDatabaseWithContent),
            4 => Ok(Action::RemoveDatabase),
            5 => Ok(Action::ClearDatabase),
            6 => Ok(Action::AddKeyValue),
            7 => Ok(Action::RemoveKeyValue),
            8 => Ok(Action::GetValue),
            _ => Err(()),
        }
    }
}

/// Every action comes back from its byte, and no two actions share a byte.
pub proof fn lemma_action_byte_injective(a: Action, b: Action)
    ensures
        action_byte(a) <= 8,
        action_byte(a) == action_byte(b) ==> a == b,
{
}

/// What the server needs from the client next.
#[derive(Debug, Copy, Clone, PartialEq, Eq, Structural)]
pub enum ResponseRequired {
    /// More bytes.
    SendMore,
}

impl ResponseRequired {
    /// The byte that stands for this.
    pub fn to_u8(self) -> (b: u8)
        ensures
            b == 0,
    {
        match self {
            ResponseRequired::SendMore => 0,
        }
    }

    /// Reads it back from its byte; `Err(())` for anything but 0.
    pub fn try_from_u8(value: u8) -> (r: Result<ResponseRequired, ()>)
        ensures
            value == 0 <==> r == Ok::<ResponseRequired, ()>(ResponseRequired::SendMore),
            value != 0 <==> r is Err,
    {
        match value {
            0 => Ok(ResponseRequired::SendMore),
            _ => Err(()),
        }
    }
}

} // verus!
