[package]
name = "tide_headers"
version = "0.1.0"
edition = "2021"
publish = false

[dependencies]
futures = "=0.3.34"
http = "=1.5.0"
log = "=0.4.34"
