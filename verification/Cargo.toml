[package]
name = "image_streamer"
version = "0.1.0"
edition = "2021"
publish = false

[dependencies]
anyhow = "1"
aws-config = { version = "1", features = ["behavior-version-latest"] }
aws-sdk-s3 = "1"
libc = "0.2"
lz4_flex = "0.11"
nix = { version = "0.29", features = ["fs", "poll", "socket", "uio"] }
prost = "0.13"
serde = { version = "1", features = ["derive"] }
serde_json = "1"
structopt = "0.3"
tokio = { version = "1", features = ["rt-multi-thread"] }
