[package]
name = "one_nine"
version = "0.1.0"
edition = "2021"
publish = false

[dependencies]
hound = "3.5"
rubato = "0.15"
rustc-hash = "2"
