[package]
name = "rdedup"
version = "0.1.0"
edition = "2021"
publish = false

[dependencies]
rollsum = "*"
rust-crypto = "*"
sodiumoxide = "*"
argparse = "*"
