[package]
name = "psdevbot"
version = "0.1.0"
edition = "2021"
publish = false

[dependencies]
hashbrown = "0.14"
unicase = "*"
serde = { version = "*", features = ["derive"] }
serde_json = "*"
