[package]
name = "lean_ctx"
version = "0.1.0"
edition = "2021"
publish = false

[dependencies]
bincode = { version = "2", features = ["serde"] }
bytecount = "0.6"
glob = "0.3"
ignore = "0.4"
regex = "1"
serde = { version = "1", features = ["derive"] }
serde_json = "1"
tracing = "0.1"
ureq = "3"
urlencoding = "2"
zstd = "0.13"
