[package]
name = "rewards"
version = "0.1.0"
edition = "2021"
publish = false

[dependencies]
anyhow = "*"
bs58 = "*"
cid = "*"
serde = { version = "*", features = ["derive"] }
serde_json = "*"
