[package]
name = "basebuilder"
version = "0.1.0"
edition = "2021"
publish = false

[dependencies]
bevy = { version = "0.11", default-features = false }
bevy_common_assets = { version = "0.7", features = ["ron"] }
big-brain = "0.18"
pathfinding = "4"
rand = "0.8"
rand_xoshiro = "0.6"
serde = { version = "1", features = ["derive"] }
tracing = "0.1"
