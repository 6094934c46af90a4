[package]
name = "bidir"
version = "0.1.0"
edition = "2021"

[dependencies]
rustyline = "9.1"
