[package]
name = "bzip2_pipeline"
version = "0.1.0"
edition = "2021"
publish = false

[dependencies]
bzip2-sys = "0.1"
crossbeam-channel = "0.5"
