[package]
name = "aef"
version = "0.1.0"
edition = "2021"
publish = false

[dependencies]
brotli = "*"
clap = { version = "*", features = ["derive"] }
dialoguer = "*"
rand = "*"
ring = "*"
scrypt = "*"
unic-normal = "*"
unic-ucd = "*"
zeroize = "*"
