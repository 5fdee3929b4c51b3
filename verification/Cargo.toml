[package]
name = "fast_routing"
version = "0.1.0"
edition = "2021"
publish = false

[dependencies]
petgraph = "*"
serde = { version = "*", features = ["derive"] }
serde_json = "*"
thiserror = "*"
geo-types = "*"
