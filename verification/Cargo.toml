[package]
name = "markovish"
version = "0.1.0"
edition = "2021"
publish = false

[dependencies]
hashbrown = "0.15"
rand = "0.9"
rand_distr = "0.5"
unicode-segmentation = "1"
