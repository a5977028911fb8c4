[package]
name = "fanout_ring"
version = "0.1.0"
edition = "2021"
publish = false

[dependencies]
crossbeam-utils = "*"
libc = "*"
parking_lot = "*"
