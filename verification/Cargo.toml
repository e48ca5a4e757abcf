[package]
name = "graphlib"
version = "0.1.0"
edition = "2021"
publish = false

[dependencies]
ordered_hashmap = "=0.0.3"
dagre_rust = "=0.0.5"
serde = { version = "=1.0.229", features = ["derive"] }
serde_json = "=1.0.154"
