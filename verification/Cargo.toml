[package]
name = "record_cache"
version = "0.1.0"
edition = "2021"
publish = false

[dependencies]
lmdb = "0.8"
