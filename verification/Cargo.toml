[package]
name = "regression_forest"
version = "0.1.0"
edition = "2021"
publish = false

[dependencies]
csv = "1"
ndarray = "0.15"
ndarray-csv = "0.5"
rand = "0.8"
