[package]
name = "relation_graph"
version = "0.1.0"
edition = "2021"
publish = false

[dependencies]
bevy_utils = "0.11"
smallvec = "1"
bevy = { version = "0.11", default-features = false }
