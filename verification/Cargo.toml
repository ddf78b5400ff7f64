[package]
name = "gossip_glomers"
version = "0.1.0"
edition = "2021"
publish = false

[dependencies]
maelstrom-common = "*"
serde = { version = "1", features = ["derive"] }
serde_json = "1"
