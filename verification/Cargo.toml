[package]
name = "smoothie"
version = "0.1.0"
edition = "2021"
publish = false

[dependencies]
rand = "0.8"
clap = { version = "4", features = ["derive"] }
serde = { version = "1", features = ["derive"] }
serde_json = "1"
glob = "0.3"
log = "0.4"
pretty_env_logger = "0.5"
petgraph = "0.6"
