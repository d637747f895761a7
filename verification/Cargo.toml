[package]
name = "n2"
version = "0.1.0"
edition = "2021"
publish = false

[dependencies]
rustc-hash = "1.1"
ahash = "0.8"
hashbrown = { version = "0.14", features = ["raw"] }
anyhow = "1"
lexopt = "0.3"
libc = "0.2"
memmap2 = "0.9"
json = "0.12"
