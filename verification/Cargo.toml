[package]
name = "binfs"
version = "0.1.0"
edition = "2021"
publish = false

[dependencies]
blake3 = "*"
base64 = "0.22"
libc = "*"
serde = { version = "*", features = ["derive"] }
serde_json = "*"
tokio = { version = "*", features = ["rt-multi-thread", "macros", "sync", "time", "net"] }
uuid = { version = "*", features = ["v4"] }
clap = { version = "*", features = ["derive"] }
tonic = "*"
tokio-stream = { version = "*", features = ["net"] }
async-trait = "*"
fuser = { version = "*", default-features = false }
