[package]
name = "bitcask"
version = "0.1.0"
edition = "2021"
publish = false

[dependencies]
crc = "*"
rand = "*"
memmap2 = "*"
clap = { version = "*", features = ["derive"] }
tokio = { version = "*", features = ["full"] }
bytes = "*"
simple_logger = "*"
log = "*"
