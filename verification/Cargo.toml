[package]
name = "subtree_clone"
version = "0.1.0"
edition = "2021"
publish = false

[dependencies]
indexmap = "*"
anyhow = "*"
serde = { version = "*", features = ["derive"] }
serde_json = "*"
tokio = { version = "*", features = ["rt", "macros"] }
tokio-postgres = "*"
deadpool-postgres = "*"
uuid = { version = "*", features = ["v4"] }
tracing = "*"
