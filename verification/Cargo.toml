[package]
name = "grid_wall_builder"
version = "1.3.0"
edition = "2021"
publish = false
