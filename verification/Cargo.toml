[package]
name = "specialized_div_rem"
version = "0.1.0"
edition = "2021"
publish = false

[dev-dependencies]
rand = "*"
