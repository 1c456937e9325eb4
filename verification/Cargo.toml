[package]
name = "pagestore"
version = "0.1.0"
edition = "2021"
publish = false

[dependencies]
parking_lot = "=0.12.5"
crc32fast = "=1.5.2"
lock_api = "*"
