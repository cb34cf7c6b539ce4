[package]
name = "dfajit"
version = "0.1.0"
edition = "2021"
publish = false

[dependencies]
matchkit = "*"
thiserror = "*"
libc = "*"
