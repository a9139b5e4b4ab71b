[package]
name = "cgp"
version = "0.1.0"
edition = "2021"
publish = false

[dependencies]
rand = "0.8"
petgraph = "0.6"
itertools-num = "0.1"
float_eq = "1"
clap = { version = "4", features = ["derive"] }
csv = "1"
plotly = "*"
