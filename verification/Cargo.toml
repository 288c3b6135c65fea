[package]
name = "casacure"
version = "0.1.0"
edition = "2021"
publish = false

[dependencies]
libc = "0.2"
memmap2 = "0.9"
thiserror = "2"
