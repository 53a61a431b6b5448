[package]
name = "ai_slop"
version = "0.1.0"
edition = "2021"
publish = false

[dependencies]
sha2 = "0.10"
toml = "0.8"
serde = { version = "1", features = ["derive"] }
serde_json = "1"
unicode-ident = "1"
lexopt = "0.3"
