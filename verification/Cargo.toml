[package]
name = "eventfile"
version = "0.1.0"
edition = "2021"
publish = false

[dependencies]
zstd = "*"
memmap2 = "*"
fbr_cache = "*"

[dev-dependencies]
rand = "*"
cbor-data = "*"
