[package]
name = "arena_physics"
version = "0.1.0"
edition = "2021"
publish = false

[dependencies]
macroquad = "0.4"
quad-rand = "0.2"
