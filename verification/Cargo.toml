[package]
name = "fable_ecs"
version = "0.1.0"
edition = "2021"
publish = false

[dependencies]
linkme = "0.3"
