[package]
name = "neural_net_mnist"
version = "0.1.0"
edition = "2021"
publish = false

[dependencies]
rand = "*"
