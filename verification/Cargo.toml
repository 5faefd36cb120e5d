[package]
name = "bw_json"
version = "0.1.0"
edition = "2021"
publish = false

[dependencies]
json = "0.12"
log = "0.4"
fern = "0.6"
