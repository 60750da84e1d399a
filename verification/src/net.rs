//! What the TCP protocol of `sourisd` shares between client and server.
pub mod tcp_utils;
