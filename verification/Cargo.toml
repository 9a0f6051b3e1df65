[package]
name = "buk"
version = "0.1.0"
edition = "2021"
publish = false

[dependencies]
chrono = "0.4"
structopt = "0.3"
