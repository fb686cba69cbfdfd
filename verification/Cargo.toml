[package]
name = "meshopt"
version = "0.1.0"
edition = "2021"
publish = false

[dependencies]
bitflags = "2"
float-cmp = "0.9"
thiserror = "1"
