[package]
name = "mucas"
version = "0.12.1"
edition = "2021"
publish = false

[dependencies]
flate2 = "1"
indicatif = "0.17"
