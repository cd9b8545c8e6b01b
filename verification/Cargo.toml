[package]
name = "serde_arrays"
version = "0.2.0"
edition = "2021"
publish = false

[dependencies]
serde = "1"

[dev-dependencies]
serde_json = "1"
