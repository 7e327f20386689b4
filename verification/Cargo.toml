[package]
name = "blop-db"
version = "0.1.0"
edition = "2021"
publish = false

[dependencies]
crc32c = "0.6"
getrandom = "0.3"
sha2 = "0.10"
proc-macro2 = "1"
quote = "1"
syn = { version = "2", features = ["full"] }
tempfile = "3"
tokio = { version = "1", features = ["sync"] }
