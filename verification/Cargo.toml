[package]
name = "block_graph"
version = "0.1.0"
edition = "2021"

[dependencies]
rand = "0.8"
rand_chacha = "0.3"
macroquad = "0.3"
egui-macroquad = "0.15"
