[package]
name = "cluster_client"
version = "0.1.0"
edition = "2021"
publish = false

[dependencies]
async-trait = "0.1"
dashmap = "5"
futures = "0.3"
thiserror = "1"
tonic = { version = "0.8", default-features = false }
