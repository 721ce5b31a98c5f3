[package]
name = "garage_core"
version = "0.1.0"
edition = "2021"
publish = false

[dependencies]
hex = "0.4"
blake2 = "0.10"
