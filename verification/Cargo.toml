[package]
name = "deterministic"
version = "0.1.0"
edition = "2021"
publish = false

[dependencies]
rand = "0.4"
libc = "0.2"
time = "0.1"
