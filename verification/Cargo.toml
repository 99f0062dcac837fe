[package]
name = "netflow"
version = "0.1.0"
edition = "2021"
publish = false

[dependencies]
arrow = { version = "=59.3.2", default-features = false, features = ["prettyprint"] }
axum = { version = "0.8", default-features = false, features = ["http1", "json", "query", "tokio"] }
chrono = { version = "=0.4.45", features = ["serde"] }
clap = { version = "4", features = ["derive"] }
flate2 = "=1.1.10"
futures = "0.3"
ipnet = { version = "=2.12.2", features = ["serde"] }
parquet = { version = "=59.3.2", default-features = false, features = ["arrow", "zstd"] }
rdkafka = { version = "0.39", default-features = false, features = ["tokio"] }
serde = { version = "1", features = ["derive"] }
serde_json = "1"
serde_yaml_ng = "0.10"
signal-hook = "*"
tokio = { version = "1", features = ["macros", "net", "rt-multi-thread"] }
tracing = "0.1"
tracing-subscriber = "0.3"
