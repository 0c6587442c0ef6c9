[package]
name = "keyed_stats"
version = "0.1.0"
edition = "2021"
publish = false

[dependencies]
ahash = "*"
memmap2 = "*"
num_cpus = "*"
rayon = "*"
