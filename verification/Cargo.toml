[package]
name = "w10_bridge"
version = "0.1.0"
edition = "2021"
publish = false

[dependencies]
libc = "0.2"
log = "0.4"
serialport = { version = "4", default-features = false }
