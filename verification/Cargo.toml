[package]
name = "animation_core"
version = "0.1.0"
edition = "2021"
publish = false

[dependencies]
dashmap = "*"
bevy_math = "*"
bevy_tasks = "*"
