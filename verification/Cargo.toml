[package]
name = "ogc-edr"
version = "0.1.0"
edition = "2021"
publish = false

[dependencies]
arrow = { version = "=59.3.2", default-features = false }
axum = { version = "=0.8.9", default-features = false, features = ["http1", "json", "query", "tokio"] }
chrono = { version = "=0.4.45", default-features = false, features = ["std"] }
futures = { version = "0.3", default-features = false, features = ["std", "async-await"] }
maud = { version = "=0.27.0", features = ["axum"] }
serde_json = { version = "=1.0.154", features = ["raw_value"] }
tokio = { version = "1", features = ["macros", "net", "rt-multi-thread"] }
toml = "=0.9.12"
tracing = "0.1"
tracing-subscriber = { version = "0.3", features = ["env-filter"] }
zarrs = { version = "=0.23.14", default-features = false, features = ["async"] }
