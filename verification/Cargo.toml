[package]
name = "nationstates"
version = "0.1.0"
edition = "2021"
publish = false

[dependencies]
bytes = "=1.12.1"
derive_more = { version = "=2.1.1", features = ["try_into", "unwrap", "is_variant"] }
futures = "=0.3.34"
lazy_static = "=1.5.1"
quick-xml = { version = "=0.42.0", features = ["serialize"] }
reqwest = { version = "=0.13.5", default-features = false, features = ["query"] }
serde = { version = "=1.0.229", features = ["derive"] }
thiserror = "=2.0.21"
tokio = { version = "=1.54.1", features = ["sync", "time", "rt"] }
