[package]
name = "segment"
version = "0.1.0"
edition = "2021"
publish = false

[dependencies]
bitvec = "1"
rocksdb = { version = "*", default-features = false }
parking_lot = "*"
atomic_refcell = "*"
log = "0.4"
