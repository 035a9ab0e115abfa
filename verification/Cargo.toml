[package]
name = "console_core"
version = "0.1.0"
edition = "2021"
publish = false

[dependencies]
regex = "=1.13.1"
hdrhistogram = "=7.6.0"
console-api = "=0.9.0"
prost-types = "=0.14.4"
