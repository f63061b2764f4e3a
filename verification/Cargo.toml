[package]
name = "chunked_stats"
version = "0.1.0"
edition = "2021"
publish = false

[dependencies]
ahash = "0.8"
async-channel = "2"
log = "0.4"
rayon = "1"
simple_logger = { version = "*", default-features = false }
tokio = { version = "1", features = ["rt-multi-thread", "macros", "sync"] }
