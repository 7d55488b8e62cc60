[package]
name = "tinikeyval"
version = "0.1.0"
edition = "2021"
publish = false

[dependencies]
anyhow = "*"
clap = { version = "*", features = ["derive"] }
crc-fast = "*"
crc64 = "*"
ctrlc = "*"
rand = "*"
tempfile = "*"
tokio = { version = "*", features = ["full"] }
