[package]
name = "split_work"
version = "0.1.0"
edition = "2021"
publish = false

[dependencies]
core_affinity = "*"
flume = { version = "*", default-features = false }
num-bigint = "*"
num-traits = "*"
rayon = "*"
