[package]
name = "wings_core"
version = "0.1.0"
edition = "2021"
publish = false

[dependencies]
ignore = "*"
serde = { version = "*", features = ["derive"] }
serde_json = "*"
sha1 = "*"
sha2 = "*"
uuid = "*"
