[package]
name = "aifs"
version = "0.1.0"
edition = "2021"
publish = false

[dependencies]
zip = { version = "=9.2.2", default-features = false, features = ["deflate"] }
fuser = { version = "=0.14.0", default-features = false }
libc = "=0.2.191"
tokio = { version = "=1.54.1", features = ["full"] }
reqwest = { version = "=0.12.28", default-features = false, features = ["json"] }
serde = { version = "=1.0.229", features = ["derive"] }
notify = "=8.2.1"
walkdir = "=2.5.0"
anyhow = "=1.0.104"
futures = "=0.3.34"
arrow-array = "=60.1.0"
arrow-schema = "=60.1.0"
