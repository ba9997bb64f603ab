[package]
name = "downsample"
version = "0.1.0"
edition = "2021"
publish = false

[dependencies]
polars = { version = "*", features = ["is_in", "random"] }
clap = "3.2"
