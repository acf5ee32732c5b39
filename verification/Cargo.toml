[package]
name = "alpm"
version = "0.1.0"
edition = "2021"
publish = false

[dependencies]
libloading = "*"
rust-ini = "*"
num = "*"
enum_primitive = "*"
