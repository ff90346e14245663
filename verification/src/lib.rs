//! Cluster-mode access to a partitioned database: which node owns a name,
//! which client handle serves a node, and what a write over several nodes
//! amounts to once every node has answered.

pub mod db_client;
pub mod errors;
pub mod model;
