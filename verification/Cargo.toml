[package]
name = "velos"
version = "0.1.0"
edition = "2021"
publish = false

[dependencies]
flate2 = "1"
petgraph = "=0.8.3"
thiserror = "=2.0.21"
tonic = "=0.14.9"
