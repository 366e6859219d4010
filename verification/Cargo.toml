[package]
name = "team_centrality"
version = "0.1.0"
edition = "2021"
publish = false

[dependencies]
petgraph = "*"
csv = "*"
serde = { version = "*", features = ["derive"] }
