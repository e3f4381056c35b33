[package]
name = "isocore"
version = "0.1.0"
edition = "2021"
publish = false

[dependencies]
argon2 = "0.5"
blake3 = "1"
chacha20poly1305 = "0.10"
ed25519-dalek = { version = "2", features = ["rand_core"] }
memmap2 = "0.9"
rand_core = { version = "0.6", features = ["getrandom"] }
x25519-dalek = { version = "2", features = ["static_secrets"] }
zstd = "0.13"
