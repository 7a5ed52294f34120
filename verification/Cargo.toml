[package]
name = "ospf_route"
version = "0.1.0"
edition = "2021"
publish = false

[dependencies]
anyhow = "1"
async-trait = "0.1"
atomic-shim = "*"
bytes = "1"
cidr = "*"
dashmap = "5"
petgraph = "0.6"
prost = "0.13"
rand = "0.8"
serde = { version = "1", features = ["derive"] }
tarpc = { version = "0.32", features = ["tokio1", "serde1"] }
thiserror = "1"
tokio = { version = "1", features = ["full"] }
tracing = "0.1"
uuid = { version = "1", features = ["v4", "serde"] }
