[package]
name = "xray_core"
version = "0.1.0"
edition = "2021"
publish = false

[dependencies]
futures = "0.1"

[dev-dependencies]
rand = "0.4"
