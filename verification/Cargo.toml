[package]
name = "sand-sim"
version = "0.1.0"
edition = "2021"
publish = false

[dependencies]
napi = "=2.16.17"
napi-derive = "=2.16.13"
rustc_apfloat = "0.2"
serde = { version = "=1.0.229", features = ["derive"] }
serde_json = "=1.0.154"
