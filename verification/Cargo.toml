[package]
name = "cnf_cardinality"
version = "0.1.0"
edition = "2021"
publish = false

[dependencies]
num = "0.4"
smallvec = "1"
varisat = "0.2"
