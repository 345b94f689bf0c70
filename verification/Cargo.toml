[package]
name = "crabkv"
version = "0.1.0"
edition = "2021"
publish = false

[dependencies]
lru = "*"
snap = "1"
parking_lot = "0.12"
