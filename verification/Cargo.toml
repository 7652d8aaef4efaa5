[package]
name = "kdht"
version = "0.1.0"
edition = "2021"
publish = false

[dependencies]
crypto-hashes = "*"
sha1 = "*"
rand = "*"
