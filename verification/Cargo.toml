[package]
name = "bounded_pool"
version = "0.1.0"
edition = "2021"
publish = false

[dependencies]
atomic_refcell = "0.1"
crossbeam = "0.8"
nix = { version = "0.24", features = ["sched", "process"] }
