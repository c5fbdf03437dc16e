[package]
name = "devflow"
version = "0.1.0"
edition = "2021"
publish = false

[dependencies]
anyhow = "=1.0.104"
arc-swap = "=1.9.3"
gix = { version = "=0.90.0", default-features = false, features = ["attributes", "status", "blame", "parallel", "revision", "sha1"] }
imara-diff = "=0.2.0"
libc = "=0.2.191"
log = "=0.4.35"
serde = { version = "=1.0.229", features = ["derive"] }
serde_json = "=1.0.154"
tokio = { version = "=1.54.1", features = ["rt", "macros", "process", "time", "io-util"] }
unicode-segmentation = "=1.13.3"
unicode-width = "=0.1.12"
url = "=2.5.8"
