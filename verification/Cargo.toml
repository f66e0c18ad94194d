[package]
name = "corridor_path"
version = "0.1.0"
edition = "2021"
publish = false

[dependencies]
ndarray = "=0.17.2"
pathfinding = "=4.15.0"
