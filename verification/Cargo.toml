[package]
name = "udp_client"
version = "0.1.0"
edition = "2021"
publish = false

[dependencies]
crc = "3"
governor = "0.6"
async-std = "1"
futures = "0.3"
clap = { version = "4", features = ["derive"] }
rand = "0.8"
memmap = "0.7"
