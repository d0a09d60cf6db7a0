[package]
name = "spreadsheet_engine"
version = "0.1.0"
edition = "2021"
publish = false

[dependencies]
interavl = "*"
rand = "0.9"
ndarray = "*"
