[package]
name = "izin"
version = "0.1.0"
edition = "2021"
publish = false

[dependencies]
sled = "0.34"
rust-argon2 = "0.8"
ring = "0.16"
