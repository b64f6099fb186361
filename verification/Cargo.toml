[package]
name = "openion"
version = "0.1.0"
edition = "2021"
publish = false

[dependencies]
bitflags = "2"
rlsf = "0.2"
spin = "0.9"
smoltcp = "0.12"
