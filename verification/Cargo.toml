[package]
name = "toric"
version = "0.1.0"
edition = "2021"
publish = false

[dependencies]
serde = { version = "=1.0.228", features = ["derive"] }
serde_json = "=1.0.154"
hdk = "=0.6.3"
hdi = "=0.7.3"
holochain_serialized_bytes = "*"
