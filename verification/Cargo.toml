[package]
name = "shorts"
version = "0.1.0"
edition = "2021"
publish = false

[dependencies]
clap = { version = "=4.6.7", features = ["derive"] }
env_logger = "=0.11.11"
glob = "=0.3.4"
log = "=0.4.35"
rayon = "=1.12.0"
serde = { version = "=1.0.229", features = ["derive"] }
serde_json = "=1.0.154"
walkdir = "=2.5.0"
xxhash-rust = { version = "=0.8.19", features = ["xxh3"] }

[dev-dependencies]
tempfile = "=3.27.0"
