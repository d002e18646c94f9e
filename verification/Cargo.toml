[package]
name = "fdb"
version = "0.1.0"
edition = "2021"
publish = false

[dependencies]
regex = "*"
getopts = "*"
time = "*"

[dev-dependencies]
bincode = "1"
