[package]
name = "micrograd_rs"
version = "0.1.0"
edition = "2021"
publish = false

[dependencies]
ndarray = "0.16"
plotters = { version = "0.3", default-features = false, features = ["bitmap_backend", "bitmap_encoder", "all_series", "all_elements"] }
rand = "0.9"
