[package]
name = "divisor_db"
version = "0.1.0"
edition = "2021"
publish = false

[dependencies]
crossbeam = "0.2"
fnv = "1"
getopts = "0.2"
mersenne_twister = "1"
rand = "0.4"
