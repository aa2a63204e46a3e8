[package]
name = "whirlwind"
version = "0.1.0"
edition = "2021"
publish = false

[dependencies]
async-stream = "0.3"
crossbeam-utils = "0.8"
futures = "0.3"
hashbrown = "0.15"
tokio = { version = "1", features = ["sync", "rt", "macros"] }
