[package]
name = "stream"
version = "0.1.0"
edition = "2021"
publish = false

[dependencies]
chacha20poly1305 = "=0.10.1"
hkdf = "=0.12.4"
sha2 = "=0.10.9"
rand_core = { version = "=0.6.4", features = ["getrandom"] }
zeroize = "1"
