[package]
name = "tonks"
version = "0.1.0"
edition = "2021"
publish = false

[dependencies]
bit-set = "*"
smallvec = "*"
crossbeam = "*"
rayon = "*"
lazy_static = "*"
parking_lot = "*"
bumpalo = "*"
thread_local = "*"
legion = { version = "*", default-features = false }
