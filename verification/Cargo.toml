[package]
name = "dbc_data"
version = "0.1.0"
edition = "2021"
publish = false

[dependencies]
can-dbc = "*"
syn = "2"
quote = "1"
proc-macro2 = "1"
