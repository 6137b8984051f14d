[package]
name = "product_quantizer"
version = "0.1.0"
edition = "2021"
publish = false

[dependencies]
lax = "0.2"
log = "0.4"
ndarray = "0.15"
ndarray-linalg = "0.14"
num-traits = "0.2"
ordered-float = "2"
rand = "0.8"
rand_xorshift = "0.3"
