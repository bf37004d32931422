[package]
name = "shardlink"
version = "0.1.0"
edition = "2021"
publish = false

[dependencies]
indexmap = "2"
rand = "0.8"
x25519-dalek = "2"
smol = "2"
bytes = "1"
parking_lot = "0.12"
