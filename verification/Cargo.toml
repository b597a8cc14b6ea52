[package]
name = "katas"
version = "0.1.0"
edition = "2021"
publish = false

[dependencies]
failure = "0.1"
itertools = "0.10"
num = "0.4"
rayon = "1"
regex = "1"
unic-char-range = "0.9"
