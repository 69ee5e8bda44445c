[package]
name = "desync_rs"
version = "0.1.0"
edition = "2021"
publish = false

[dependencies]
rust-crypto = "=0.2.36"
zstd = "=0.14.0"
rustc-serialize = "=0.3.25"
url = "=2.5.8"
clap = "=4.6.7"
log = "=0.4.34"
log4rs = "=1.4.0"
