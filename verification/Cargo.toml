[package]
name = "crubclip"
version = "0.1.0"
edition = "2021"
publish = false

[dependencies]
openssl = "*"
getopt-long = "*"
log = "*"
simplelog = "*"
secret-service = { version = "*", features = ["rt-tokio-crypto-rust"] }
shellexpand = "*"
tokio = { version = "*", features = ["rt-multi-thread", "macros"] }
toml = "*"
wl-clipboard-rs = "*"
