[package]
name = "rustex"
version = "0.1.0"
edition = "2021"
publish = false

[dependencies]
bigdecimal = "0.4"
num-bigint = "0.4"
skiplist = "0.5"
