[package]
name = "bucket_storage"
version = "0.1.0"
edition = "2021"
publish = false

[dependencies]
argon2 = "0.5"
rand = "0.8"
base64 = "0.22"
sha1 = "0.10"
uuid = { version = "1", features = ["v4"] }
axum = { version = "0.6", features = ["multipart"] }
tokio = { version = "1", features = ["macros", "rt-multi-thread", "fs", "net"] }
serde = { version = "1", features = ["derive"] }
serde_json = "1"
dotenv = "0.15"
