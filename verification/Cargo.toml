[package]
name = "dupsort_kv"
version = "0.1.0"
edition = "2021"
publish = false

[dependencies]
num-bigint = "=0.4.8"
num-traits = "=0.2.19"
rocksdb = "=0.22.0"
clap = { version = "=4.6.7", features = ["derive"] }
eyre = "=0.6.14"
metrics = "=0.21.1"
itertools = "=0.12.1"
alloy-rlp = "0.3"
