[package]
name = "ckpttn_rs"
version = "0.1.0"
edition = "2021"
publish = false

[dependencies]
petgraph = { version = "=0.6.5", features = ["serde-1"] }
serde_json = "=1.0.154"
netlistx-rs = "*"
