[package]
name = "mpi-rma"
version = "0.1.0"
edition = "2021"
publish = false

[dependencies]
crc32fast = "1"
mpi = { version = "0.8", default-features = false }
