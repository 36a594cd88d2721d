[package]
name = "gitbutler_core"
version = "0.1.0"
edition = "2021"
publish = false

[dependencies]
git2 = { version = "*", default-features = false }
anyhow = "*"
serde = { version = "*", features = ["derive"] }
serde_json = "*"
