[package]
name = "omnix"
version = "0.1.0"
edition = "2021"
publish = false

[dependencies]
uuid = { version = "*", features = ["v4"] }
rand = "*"
serde = { version = "*", features = ["derive"] }
serde_json = "*"
sled = "*"
tokio = { version = "*", features = ["full"] }
anyhow = "*"
async-trait = "*"
