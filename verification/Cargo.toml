[package]
name = "propdump_cell"
version = "0.1.0"
edition = "2021"
publish = false

[dependencies]
byteorder = "1"
clap = "2"
ctrlc = "3"
encoding = "0.2"
failure = "0.1"
lazy_static = "1"
libloading = "0.8"
