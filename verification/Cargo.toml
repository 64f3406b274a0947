[package]
name = "torrex"
version = "0.1.0"
edition = "2021"
publish = false

[dependencies]
sha1 = "0.10"
serde_bencode = "0.2"
serde_bytes = "0.11"
serde = { version = "1", features = ["derive"] }
serde_json = "1"
urlencoding = "2"
hex = "0.4"
rand = "0.9"
tokio = { version = "1", features = ["full"] }
reqwest = { version = "0.12", default-features = false }
uuid = { version = "1", features = ["v4"] }
actix-web = { version = "4", default-features = false, features = ["macros"] }
actix-ws = "0.3"
env_logger = "0.11"
log = "0.4"
