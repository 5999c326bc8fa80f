[package]
name = "fairplay_auth"
version = "0.1.0"
edition = "2021"
publish = false

[dependencies]
argon2 = { version = "0.5", features = ["std"] }
rand = "0.9"
hmac = "0.12"
sha2 = "0.10"
uuid = "1"
axum = "0.8"
tokio = { version = "1", features = ["full"] }
tokio-postgres = { version = "0.7", features = ["with-uuid-1"] }
serde = { version = "1", features = ["derive"] }
serde_with = { version = "3", features = ["base64"] }
dotenvy = "0.15"

[dev-dependencies]
base64 = "0.22"
