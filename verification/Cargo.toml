[package]
name = "vera"
version = "0.1.0"
edition = "2021"
publish = false

[dependencies]
ndarray = "=0.17.2"
fitsrs = "=0.4.1"
rayon = "=1.12.0"
thiserror = "=2.0.21"
