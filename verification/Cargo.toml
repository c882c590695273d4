[package]
name = "gba_streamer"
version = "0.1.0"
edition = "2021"
publish = false

[dependencies]
lz4_flex = "0.11"
anyhow = "1"
clap = { version = "4", features = ["derive"] }
tokio = { version = "1", features = ["full"] }
warp = "0.3"
futures-util = { version = "0.3", features = ["sink"] }
tokio-stream = { version = "0.1", features = ["net"] }
libloading = "0.8"
