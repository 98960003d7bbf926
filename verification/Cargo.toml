[package]
name = "cluster_node"
version = "0.1.0"
edition = "2021"
publish = false

[dependencies]
rand = "*"

[dev-dependencies]
serde_json = "*"
