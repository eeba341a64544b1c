[package]
name = "crsl"
version = "0.1.0"
edition = "2021"
publish = false

[dependencies]
sha2 = "*"
multibase = "*"
ulid = "*"
rusty-leveldb = "*"
