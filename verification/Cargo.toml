[package]
name = "codex-activity-compiler"
version = "0.1.0"
edition = "2021"
publish = false

[dependencies]
serde_json = "1"
opentelemetry-proto = "*"
prost = "*"
axum = "*"
tokio = { version = "1", features = ["macros", "rt-multi-thread", "net"] }
rusqlite = { version = "*", features = ["bundled"] }
