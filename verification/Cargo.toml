[package]
name = "reo_rs"
version = "0.1.0"
edition = "2021"
publish = false

[dependencies]
smallvec = "1"
hashbrown = "0.15"
rand = "0.8"
crossbeam = "0.8"
parking_lot = "0.12"
