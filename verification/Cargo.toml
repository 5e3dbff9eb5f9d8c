[package]
name = "lsm_store"
version = "0.1.0"
edition = "2021"
publish = false

[dependencies]
xxhash-rust = { version = "0.8", features = ["xxh3"] }
twox-hash = "1.6"
page_size = "0.6"
serde = { version = "1", features = ["derive"] }
bincode = "1.3"
libc = "0.2"
rand = "0.8"
