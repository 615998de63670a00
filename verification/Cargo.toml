[package]
name = "hydro"
version = "0.1.0"
edition = "2021"
publish = false

[dependencies]
petgraph = "0.6"
serde = { version = "1", features = ["derive"] }
serde_json = "1"
thiserror = "1"
kiddo = "4"
spade = "2"
rand = { version = "0.8", features = ["small_rng"] }
