[package]
name = "knapsack_opt"
version = "0.1.0"
edition = "2021"
publish = false

[dependencies]
lp-modeler = "*"

[dev-dependencies]
rand = "0.8"
