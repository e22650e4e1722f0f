[package]
name = "parrd_sampling"
version = "0.1.0"
edition = "2021"
publish = false

[dependencies]
rand = "0.8"
rayon = "1"
csv = "1"
fxhash = "0.2"
