[package]
name = "tsffs"
version = "0.1.0"
edition = "2021"
publish = false

[dependencies]
anyhow = "1"
chrono = "0.4"
gimli = "*"
intervaltree = "*"
md5 = "*"
object = "*"
pdb = "*"
serde = { version = "1", features = ["derive"] }
serde_json = "1"
sha1 = "0.10"
sha2 = "0.10"
tracing = "*"
typed-path = "*"
walkdir = "2"
