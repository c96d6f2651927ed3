[package]
name = "module_graph"
version = "0.1.0"
edition = "2021"
publish = false

[dependencies]
anyhow = "1"
fixedbitset = "=0.4.2"
petgraph = "=0.6.5"
serde = { version = "1", features = ["derive"] }
tracing = "0.1"
