[package]
name = "filtration_domination"
version = "0.1.0"
edition = "2021"
publish = false

[dependencies]
litemap = "*"
rand = "*"
