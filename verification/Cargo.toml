[package]
name = "gunzip"
version = "0.1.0"
edition = "2021"
publish = false

[dependencies]
anyhow = "1"
byteorder = "1"
crc = "=3.0.1"
log = "0.4"
