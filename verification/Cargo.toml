[package]
name = "order_book"
version = "0.1.0"
edition = "2021"
publish = false

[dependencies]
rust_decimal = "1"
uuid = { version = "1", features = ["v4"] }
pyo3 = { version = "0.25", features = ["abi3-py39"] }
