[package]
name = "roll"
version = "0.1.0"
edition = "2021"
publish = false

[dependencies]
rand_xoshiro = "*"
rustyline = "*"
dirs = "*"
term_size = "*"
