[package]
name = "ironvein"
version = "0.1.0"
edition = "2021"
publish = false

[dependencies]
chacha20poly1305 = "0.10"
getrandom = "0.2"
k256 = { version = "0.13", features = ["schnorr", "ecdh"] }
macroquad = "0.4"
rodio = "0.19"
sha2 = "0.10"
