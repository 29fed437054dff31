[package]
name = "document-parsing"
version = "0.1.0"
edition = "2021"
publish = false

[dependencies]
autoagents = "*"
autoagents-derive = "*"
log = "0.4"
quick-xml = "0.37"
reqwest = { version = "0.12", default-features = false, features = ["rustls-tls"] }
serde = { version = "1", features = ["derive"] }
serde_json = "1"
tokio = { version = "1", features = ["fs", "rt-multi-thread", "macros"] }
zip = { version = "2", default-features = false, features = ["deflate"] }
