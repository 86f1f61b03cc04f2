[package]
name = "tinyvpn"
version = "0.1.0"
edition = "2021"
publish = false

[dependencies]
anyhow = "1"
axum = "0.7"
chacha20poly1305 = "0.10"
clap = { version = "4", features = ["derive"] }
quinn = "0.11"
rand = "0.8"
rcgen = "0.13"
rusqlite = { version = "0.31", features = ["bundled"] }
rustls = { version = "0.23", default-features = false, features = ["ring", "std"] }
serde = { version = "1", features = ["derive"] }
serde_json = "1"
tokio = { version = "1", features = ["full"] }
tower-http = { version = "0.5", features = ["cors"] }
tracing = "0.1"
tracing-subscriber = { version = "0.3", features = ["env-filter"] }
x25519-dalek = { version = "2", features = ["static_secrets"] }
