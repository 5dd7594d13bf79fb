[package]
name = "braid"
version = "0.1.0"
edition = "2021"
publish = false

[dependencies]
bytes = "1"
clap = { version = "4", features = ["derive"] }
crc32fast = "1"
libc = "0.2"
lz4_flex = "0.11"
socket2 = { version = "0.5", features = ["all"] }
tokio = { version = "1", features = ["full"] }
tracing = "0.1"
tracing-subscriber = { version = "0.3", features = ["env-filter"] }

[dev-dependencies]
tempfile = "3"
