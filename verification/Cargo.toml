[package]
name = "delta_sync"
version = "0.1.0"
edition = "2021"
publish = false

[dependencies]
bitvec = "1.0"
rand = "0.8"
