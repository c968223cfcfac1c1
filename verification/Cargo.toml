[package]
name = "shogi_engine"
version = "0.1.0"
edition = "2021"
publish = false

[dependencies]
shogi_core = "*"
shogi_legality_lite = "*"
colored = "*"
