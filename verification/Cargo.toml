[package]
name = "bidiff"
version = "0.1.0"
edition = "2021"
publish = false

[dependencies]
zstd = "*"
comde = "*"
pico-args = "*"
hmac-sha256 = "*"
