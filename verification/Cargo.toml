[package]
name = "eight_puzzle"
version = "0.1.0"
edition = "2021"

[dependencies]
rand = "0.3"
regex = "0.1"
time = "0.1"
