[package]
name = "graphmat"
version = "0.1.0"
edition = "2021"

[dependencies]
generational-arena = "0.2"
