[package]
name = "bozorth"
version = "0.1.0"
edition = "2021"
publish = false

[dependencies]
anyhow = "=1.0.104"
argh = "=0.1.19"
bit-array = "=0.4.4"
crossbeam = "=0.8.5"
rayon = "=1.12.0"
structopt = "=0.3.26"
typenum = "=1.20.1"
