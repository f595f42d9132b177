[package]
name = "cornea"
version = "0.1.0"
edition = "2021"
publish = false

[dependencies]
gdbstub = "0.5"
