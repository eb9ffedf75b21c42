//! What is kept on disk: the layout of a table's rows, the secondary index
//! and its file format, and the catalog.

pub mod bytes;
pub mod codec;
pub mod file;
pub mod index;
pub mod layout;
pub mod order;
pub mod record;
pub mod sorted;
