[package]
name = "sling"
version = "0.1.0"
edition = "2021"
publish = false

[dependencies]
anyhow = "1"
bitcoin = "*"
chrono = "0.4"
cln-plugin = "*"
cln-rpc = "*"
log = "0.4"
log-panics = "2"
num-format = "0.4"
parking_lot = "0.12"
rand = "0.9"
serde = { version = "1", features = ["derive"] }
serde_json = "1"
tabled = "*"
tokio = { version = "1", features = ["full"] }
