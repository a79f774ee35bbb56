[package]
name = "dcrt_fhe"
version = "0.1.0"
edition = "2021"
publish = false

[dependencies]
num-bigint = { version = "=0.4.8", features = ["rand"] }
num-traits = "=0.2.19"
num-complex = "=0.4.6"
rand = "=0.8.8"
concrete-fft = "=0.5.1"
dyn-stack = "=0.10.0"
