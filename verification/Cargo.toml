[package]
name = "multi_iterate_mut"
version = "0.1.0"
edition = "2021"
publish = false

[dependencies]
arrayvec = "0.7"
core_affinity = "0.8"
crossbeam = "0.8"
lazy_static = "1"
parking_lot = "0.12"
rayon = "1"
scoped_threadpool = "0.1"
