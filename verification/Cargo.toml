[package]
name = "radial"
version = "0.1.0"
edition = "2021"
publish = false

[dependencies]
axum = "0.8"
blake3 = { version = "1", features = ["pure"] }
chrono = "0.4"
flate2 = "1"
futures = "0.3"
h3o = "0.8"
image = { version = "0.25", default-features = false, features = ["png"] }
rayon = "1"
reqwest = { version = "0.12", default-features = false, features = ["gzip", "rustls-tls"] }
serde = { version = "1", features = ["derive"] }
serde_json = "1"
thiserror = "2"
tokio = { version = "1", features = ["macros", "net", "rt-multi-thread", "signal", "sync", "time"] }
tower-http = { version = "0.6", features = ["cors", "limit", "request-id", "trace"] }
tracing-subscriber = { version = "0.3", features = ["json"] }
uuid = { version = "1", features = ["serde", "v4"] }
