[package]
name = "vtid"
version = "0.1.0"
edition = "2021"
publish = false

[dependencies]
fs2 = "*"
proc-macro2 = "*"
quote = "*"
syn = "*"
