[package]
name = "coalescence"
version = "0.1.0"
edition = "2021"
publish = false

[dependencies]
markovian = "*"
partitions = "0.2"
petgraph = "0.6"
rand = "0.8"
rand_distr = "0.4"
