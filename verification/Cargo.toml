[package]
name = "mp_research"
version = "0.1.0"
edition = "2021"
publish = false

[dependencies]
arrow = { version = "54", default-features = false }
parquet = { version = "54", default-features = false, features = ["arrow", "zstd"] }
reqwest = { version = "0.12", default-features = false, features = ["blocking", "rustls-tls"] }
serde = { version = "1", features = ["derive"] }
serde_json = "1"
thiserror = "1"
toml = "0.8"
tracing = "0.1"
zip = { version = "2", default-features = false, features = ["deflate"] }

[dev-dependencies]
crc32fast = "1"
