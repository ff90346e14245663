//! The dispatcher of cluster mode and the pool of client handles it draws on.

pub mod cluster;
pub mod guarantees;
pub mod pool;
