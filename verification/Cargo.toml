[package]
name = "parasol_runtime"
version = "0.1.0"
edition = "2021"
publish = false

[dependencies]
mux_circuits = "=0.10.0"
petgraph = "=0.7.1"
