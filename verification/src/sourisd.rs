//! The logic of the `sourisd` server: the named databases it holds, what each request does
//! to them, the arguments requests carry and the errors they can meet.
pub mod error;
pub mod v1_routes;
