[package]
name = "mktorrent_rs"
version = "0.1.0"
edition = "2021"
publish = false

[dependencies]
clap = { version = "4", features = ["derive"] }
crossbeam = "0.8"
indicatif = "0.17"
log = "0.4"
memmap2 = "0.9"
sha1 = "0.10"
sha2 = "0.10"
stderrlog = "0.6"
walkdir = "2"
