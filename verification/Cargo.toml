[package]
name = "stegos_core"
version = "0.1.0"
edition = "2021"
publish = false

[dependencies]
hex = "0.4"
lru_time_cache = "*"
rand = "0.8"
