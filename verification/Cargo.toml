[package]
name = "chess_engine"
version = "0.1.0"
edition = "2021"
publish = false

[dependencies]
csv = "=1.4.0"
flate2 = "=1.1.10"
linfa = "=0.8.1"
linfa-logistic = "=0.8.1"
ndarray = "=0.16.1"
