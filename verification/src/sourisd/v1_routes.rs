//! The state and request arguments of the first version of the server's routes.
pub mod db;
pub mod state;
pub mod value;
