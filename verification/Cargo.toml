[package]
name = "tospoof"
version = "0.1.0"
edition = "2021"
publish = false

[dependencies]
anyhow = "1"
atty = "0.2"
clap = "4"
dirs = "5"
dns-lookup = "2"
yaml-rust = "0.4"
