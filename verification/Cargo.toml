[package]
name = "qua_ten_net"
version = "0.1.0"
edition = "2021"

[dependencies]
ndarray = "0.16"
ndarray-linalg = "0.17"
rand = "0.9"
