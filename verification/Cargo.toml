[package]
name = "detecta_fraude"
version = "0.1.0"
edition = "2021"
publish = false

[dependencies]
flate2 = "1"
libc = "0.2"
memmap2 = "0.9"
serde_json = "1"
