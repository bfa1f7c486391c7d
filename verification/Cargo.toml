[package]
name = "gud_archive"
version = "0.1.0"
edition = "2021"
publish = false

[dependencies]
diffy = { version = "=0.5.2", features = ["std"] }
lzma-rs = "=0.3.0"
walkdir = "=2.5.0"
