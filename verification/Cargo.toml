[package]
name = "edcore"
version = "0.1.0"
edition = "2021"
publish = false

[dependencies]
ctrlc = "3"
mlua = { version = "*", features = ["lua54", "vendored"] }
