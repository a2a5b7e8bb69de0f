[package]
name = "store_read"
version = "0.1.0"
edition = "2021"
publish = false

[dependencies]
roaring = "*"
tikv-client = "*"
futures = "*"
