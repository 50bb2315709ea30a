[package]
name = "stacker"
version = "0.1.0"
edition = "2021"
publish = false

[dependencies]
downcast = "0.11"
