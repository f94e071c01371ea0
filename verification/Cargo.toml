[package]
name = "deep_poker"
version = "0.1.0"
edition = "2021"
publish = false

[dependencies]
rand = "0.8"
num_cpus = "1"
threadpool = "1"
indicatif = "0.17"
candle-core = "*"
candle-nn = "*"
