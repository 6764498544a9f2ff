[package]
name = "lidar_guard"
version = "0.1.0"
edition = "2021"
publish = false

[dependencies]
blake2 = "0.8"
hex = "0.4"
rand = "0.7"
rulinalg = "0.4"
serde = { version = "1", features = ["derive"] }
serde_json = "1"
sgx_types = "*"
sgx_urts = "*"
