[package]
name = "mc-chunk-hash"
version = "0.1.0"
edition = "2021"
publish = false

[dependencies]
clap = { version = "4", features = ["derive"] }
fastnbt = "2"
flate2 = "1"
humantime = "2"
indicatif = "0.17"
lz4_flex = "0.11"
memmap2 = "0.9"
rkyv = "0.8"
serde = { version = "1", features = ["derive"] }
serde_json = { version = "1", features = ["preserve_order"] }
walkdir = "2"
xxhash-rust = { version = "0.8", features = ["xxh3"] }
zstd = "0.13"
