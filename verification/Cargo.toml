[package]
name = "hypergreedy_bpe"
version = "0.1.0"
edition = "2021"
publish = false

[dependencies]
rustc-hash = "2"
unicode-segmentation = "1"
rayon = "1"
