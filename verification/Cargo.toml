[package]
name = "falling_sand"
version = "0.1.0"
edition = "2021"
publish = false

[dependencies]
fps_counter = "*"
nannou = "*"
nannou_egui = "*"
