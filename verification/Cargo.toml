[package]
name = "wikirdf"
version = "0.1.0"
edition = "2021"
publish = false

[dependencies]
fnv = "=1.0.7"
flate2 = "=1.1.10"
indicatif = "0.17"
structopt = "=0.3.26"
