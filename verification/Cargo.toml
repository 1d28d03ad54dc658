[package]
name = "common_cache"
version = "0.1.0"
edition = "2021"
publish = false

[dependencies]
ahash = { version = "=0.8.12", default-features = false }
crossbeam-queue = "=0.3.14"
hashbrown = "=0.14.5"
hashlink = "=0.8.4"
