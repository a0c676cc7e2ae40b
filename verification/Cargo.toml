[package]
name = "kvs"
version = "0.1.0"
edition = "2021"
publish = false

[dependencies]
serde_json = "1"
crossbeam-skiplist = "0.1"
crossbeam = "0.8"
num_cpus = "1"
