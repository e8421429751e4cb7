[package]
name = "valve_key_value"
version = "0.1.0"
edition = "2021"
publish = false

[dependencies]
indexmap = "2"
uuid = "1"
thiserror = "2"
svg = "*"
