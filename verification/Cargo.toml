[package]
name = "holt"
version = "0.1.0"
edition = "2021"
publish = false

[dependencies]
arbitrary = "1"
io-uring = "0.7"
libc = "0.2"
libfuzzer-sys = { version = "0.4", default-features = false }
tempfile = "3"
