[package]
name = "vec_set"
version = "0.1.0"
edition = "2021"
publish = false

[dependencies]
alga = "=0.9.3"
