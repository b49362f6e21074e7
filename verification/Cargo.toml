[package]
name = "sana"
version = "0.1.0"
edition = "2021"
publish = false

[dependencies]
async-trait = "0.1"
axum = "0.8"
bytes = { version = "1", features = ["serde"] }
crc32fast = "1"
half = { version = "2", features = ["serde"] }
postcard = { version = "1", features = ["use-std"] }
reqwest = { version = "0.12", default-features = false }
rusty-s3 = "*"
serde = { version = "1", features = ["derive"] }
serde_json = "1"
sha2 = "0.10"
siphasher = "1"
thiserror = "2"
tokio = { version = "1", features = ["full"] }
url = "2"
