[package]
name = "refgenome"
version = "0.1.0"
edition = "2021"
publish = false

[dependencies]
bio = "*"
flate2 = "*"
