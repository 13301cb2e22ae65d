[package]
name = "conparse"
version = "0.1.0"
edition = "2021"
publish = false

[dependencies]
regex = "=1.13.1"
log = "=0.4.34"
libc = "0.2"
