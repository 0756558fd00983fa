[package]
name = "small_state_attack"
version = "0.1.0"
edition = "2021"
publish = false

[dependencies]
rsa = "0.9"
rand = "0.8"
num-integer = "0.1"
num-traits = "0.2"
