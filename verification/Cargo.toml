[package]
name = "fdup"
version = "0.1.0"
edition = "2021"
publish = false

[dependencies]
rayon = "=1.12.0"
sha2 = "=0.11.1"
structopt = "=0.3.26"
walkdir = "=2.5.0"
