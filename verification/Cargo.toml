[package]
name = "olang"
version = "0.1.0"
edition = "2021"
publish = false

[dependencies]
anyhow = "1"
im = "15"
sha2 = "0.10"
stacker = "0.1"
thiserror = "2"
