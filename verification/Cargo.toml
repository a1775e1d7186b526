[package]
name = "dirt"
version = "0.1.0"
edition = "2021"
publish = false

[dependencies]
rayon = "1"
rounded-div = "*"
structopt = "0.3"
terminal_size = "0.1"
