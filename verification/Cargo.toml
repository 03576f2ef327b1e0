[package]
name = "move_fuzzer"
version = "0.1.0"
edition = "2021"
publish = false

[dependencies]
bichannel = "=0.0.4"
time = "=0.3.55"
anyhow = "=1.0.104"
libc = "=0.2.191"
bcs = "0.1.6"
