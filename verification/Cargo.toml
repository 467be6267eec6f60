[package]
name = "rhymuri"
version = "1.3.1"
edition = "2021"
publish = false

[dependencies]
thiserror = "1"
