[package]
name = "ubereditor"
version = "0.1.0"
edition = "2021"
publish = false

[dependencies]
fontdb = "*"
serde = { version = "1", features = ["derive"] }
serde_json = "1"
thiserror = "*"
ttf-parser = "*"
ulid = "1"
xxhash-rust = { version = "0.8", features = ["xxh3"] }
