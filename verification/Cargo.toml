[package]
name = "concurrent_roaring"
version = "0.1.0"
edition = "2021"
publish = false

[dependencies]
rand = "0.9"
parking_lot = "0.12"
arc-swap = "1"
crossbeam-epoch = "0.9"

[dev-dependencies]
roaring = "0.10"
