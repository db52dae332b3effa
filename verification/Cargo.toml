[package]
name = "shardagg"
version = "0.1.0"
edition = "2021"
publish = false

[dependencies]
serde_json = "*"
chrono = "*"
memmap2 = "*"
clap = "*"
