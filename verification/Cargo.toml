[package]
name = "maelstrom_gossip_glommers"
version = "0.1.0"
edition = "2021"
publish = false

[dependencies]
async-std = "1"
parking_lot = "0.12"
serde_json = "1"
tokio = { version = "1", features = ["macros", "rt-multi-thread", "time"] }
