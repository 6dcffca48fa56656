[package]
name = "relm4"
version = "0.4.0"
edition = "2021"
publish = false

[dependencies]
proc-macro2 = "=1.0.107"
syn = { version = "=1.0.109", features = ["full"] }
