//! Live sessions and the pool that keeps them.

pub mod model;
pub mod pool;
