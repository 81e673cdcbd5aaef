[package]
name = "bridge_search"
version = "0.1.0"
edition = "2021"
publish = false

[dependencies]
crc32fast = "*"
dashmap = "*"
serde = { version = "*", features = ["derive"] }
serde_json = "*"
log = "*"
env_logger = "*"
rayon = "*"
tokio = { version = "*", features = ["rt-multi-thread", "sync", "macros", "signal"] }
actix-web = "*"
