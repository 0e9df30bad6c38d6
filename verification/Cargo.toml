[package]
name = "schulze_stv"
version = "0.1.0"
edition = "2021"
publish = false

[dependencies]
getopts = "0.2"
num-bigint = "0.4"
num-integer = "0.1"
num-rational = "0.4"
num-traits = "0.2"
rust-gmp = "*"
