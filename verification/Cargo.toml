[package]
name = "workshop"
version = "0.1.0"
edition = "2021"
publish = false

[dependencies]
sha2 = "*"
hex = "*"
lib-base64 = "*"
pathfinding = "*"
chrono = "*"
tar = "*"
axum = { version = "*", features = ["ws"] }
axum-extra = { version = "*", features = ["typed-header", "multipart"] }
tokio = { version = "*", features = ["rt-multi-thread", "macros", "sync", "net", "time"] }
futures = "*"
serde = { version = "*", features = ["derive"] }
serde_json = "*"
image = "*"
