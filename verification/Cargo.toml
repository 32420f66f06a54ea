[package]
name = "jump_planner"
version = "0.1.0"
edition = "2021"
publish = false

[dependencies]
petgraph = "0.6"
rayon = "1"
serde = { version = "1", features = ["derive"] }
serde_json = "1"
clap = { version = "4", features = ["derive"] }
