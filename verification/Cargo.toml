[package]
name = "codex-mcp-server"
version = "0.0.0"
edition = "2021"
publish = false

[dependencies]
anyhow = "1"
axum = { version = "0.8", default-features = false, features = ["http1", "json", "tokio"] }
rmcp = { version = "0.15", default-features = false, features = ["base64", "macros", "server", "transport-io", "transport-streamable-http-server"] }
serde_json = "1"
tokio = { version = "1", features = ["io-std", "macros", "net", "rt-multi-thread", "sync"] }
tracing = "0.1"
