[package]
name = "mincut"
version = "0.1.0"
edition = "2021"
publish = false

[dependencies]
rand = "=0.9.5"

[dev-dependencies]
union-find = "=0.4.4"
