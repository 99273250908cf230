[package]
name = "libribzip2"
version = "0.5.0"
edition = "2021"
publish = false

[dependencies]
num_cpus = "1"
structopt = "0.3"
