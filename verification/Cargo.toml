[package]
name = "dirview"
version = "0.1.0"
edition = "2021"

[dependencies]
termsize = "0.1"
