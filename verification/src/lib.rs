//! The core of a small relational database: sorted secondary indexes over
//! fixed-width row files, a bounded least-recently-used pool of user
//! sessions, the rules of the catalog of users, databases and tables, and
//! the form of a request.
//!
//! Nothing here reads or writes a file or waits for anything: the functions
//! work on bytes, lists and texts that the caller holds.

pub mod connection;
pub mod manager;
pub mod storage;
pub mod text;
