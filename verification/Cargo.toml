[package]
name = "word_frequency"
version = "0.1.0"
edition = "2021"
publish = false

[dependencies]
rustc-serialize = "0.3"
iron = "0.6"
hyper = "0.10"
