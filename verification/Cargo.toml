[package]
name = "ckb"
version = "0.1.0"
edition = "2021"
publish = false

[dependencies]
bloom-filters = "=0.1.2"
ckb-app-config = "=0.113.1"
ckb-async-runtime = "=0.113.1"
ckb-logger = "=0.113.1"
ckb-pow = "=0.113.1"
ckb-shared = "=0.113.1"
ckb-store = "=0.113.1"
ckb-types = "=0.113.1"
ckb-util = "=0.113.1"
crossbeam-channel = "=0.5.17"
jemalloc-ctl = "=0.5.4"
jemalloc-sys = "=0.5.4"
lazy_static = "=1.5.1"
num_cpus = "=1.17.0"
numext-fixed-hash = "=0.1.6"
rand = "=0.8.8"
rayon = "=1.12.0"
serde = { version = "=1.0.229", features = ["derive"] }
