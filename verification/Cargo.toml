[package]
name = "masm"
version = "0.1.0"
edition = "2021"
publish = false

[dependencies]
crossterm = "0.27"
libloading = "0.8"
mlua = { version = "0.10", features = ["lua54", "vendored"] }
ratatui = "0.23"
