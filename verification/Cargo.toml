[package]
name = "ambi"
version = "0.1.0"
edition = "2021"
publish = false

[dependencies]
hashbrown = "*"
primes = "*"
colored = "*"
dialoguer = "*"
seq_io = "*"
