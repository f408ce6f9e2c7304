[package]
name = "maze_mining"
version = "0.1.0"
edition = "2021"
publish = false

[dependencies]
hex = "0.4"
rlp = "*"
rlp-derive = "*"
