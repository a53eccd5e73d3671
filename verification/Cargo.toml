[package]
name = "context-footprint"
version = "0.1.0"
edition = "2021"
publish = false

[dependencies]
anyhow = "1"
petgraph = "0.6"
rmcp = "*"
serde = { version = "1", features = ["derive"] }
serde_json = "1"
