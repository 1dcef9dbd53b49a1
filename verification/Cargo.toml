[package]
name = "cdb"
version = "0.2.0"
edition = "2021"
publish = false

[dependencies]
filebuffer = "=1.0.1"
