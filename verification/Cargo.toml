[package]
name = "arsc"
version = "0.1.0"
edition = "2021"
publish = false

[dependencies]
clap = "2"
memmap = "0.7"
zip = "0.6"
