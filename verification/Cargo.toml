[package]
name = "dupfinder"
version = "0.1.0"
edition = "2021"
publish = false

[dependencies]
blake3 = "1"
glob = "0.3"
num_cpus = "1"
regex = "1"
scoped-pool = "*"
structopt = "0.3"
unbytify = "*"
walkdir = "2"
