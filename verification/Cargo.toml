[package]
name = "elizadb"
version = "0.1.0"
edition = "2021"
publish = false

[dependencies]
rmp-serde = "*"
serde = { version = "*", features = ["derive"] }
axum = "*"
tokio = { version = "*", features = ["rt-multi-thread", "net", "macros"] }
