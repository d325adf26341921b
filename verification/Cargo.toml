[package]
name = "vendiwm"
version = "0.1.0"
edition = "2021"
publish = false

[dependencies]
xkbcommon = { version = "*", default-features = false }
anyhow = "1"
knus = "3"
serde = { version = "1", features = ["derive"] }
serde_json = "1"
tracing = "0.1"
tracing-subscriber = { version = "0.3", features = ["env-filter"] }
