[package]
name = "ckai"
version = "0.1.0"
edition = "2021"
publish = false

[dependencies]
color-eyre = "0.6"
thiserror = "1"
yansi = "0.5"
