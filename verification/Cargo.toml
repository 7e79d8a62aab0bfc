[package]
name = "single_flight"
version = "0.1.0"
edition = "2021"
publish = false

[dependencies]
parking_lot = "*"
triomphe = "*"
