[package]
name = "qleave"
version = "0.1.0"
edition = "2021"
publish = false

[dependencies]
clap = { version = "4", features = ["derive"] }
highs = "*"
ndarray = "*"
petgraph = "*"
rand = "0.8"
rustsat = "*"
rustsat-cadical = "*"
