//! What arrives over a connection.

pub mod request;
