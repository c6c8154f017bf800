[package]
name = "building_blocks"
version = "0.1.0"
edition = "2021"
publish = false

[dependencies]
fnv = "1"
snap = "1"
lz4 = "1"
