[package]
name = "liblz4stego"
version = "0.1.0"
edition = "2021"
publish = false

[dependencies]
byteorder = "1"
xxhash-rust = { version = "0.8", features = ["xxh32"] }
clap = "2"
log = "0.4"

[dev-dependencies]
lz4 = "1"
lz4_flex = "0.11"
