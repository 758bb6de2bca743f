[package]
name = "camel_relay"
version = "0.1.0"
edition = "2021"
publish = false

[dependencies]
fnv = "1"
num_cpus = "1"
