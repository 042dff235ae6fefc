[package]
name = "fast_stat"
version = "0.1.0"
edition = "2021"
publish = false

[dependencies]
rand = "*"
rayon = "*"
ordered-float = "*"
superslice = "*"
