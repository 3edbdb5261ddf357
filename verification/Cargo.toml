[package]
name = "dfvs"
version = "0.1.0"
edition = "2021"
publish = false

[dependencies]
bitvec = "1"
bitintr = "0.3"
num = "0.4"

[dev-dependencies]
rand = "0.8"
