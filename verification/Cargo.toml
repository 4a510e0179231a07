[package]
name = "hamming_link"
version = "0.1.0"
edition = "2021"
publish = false

[dependencies]
rand = "0.8"
rustfft = "6"
num-complex = "0.4"
plotters = { version = "0.3", default-features = false, features = ["bitmap_backend", "bitmap_encoder", "line_series", "surface_series", "all_elements", "all_series", "full_palette"] }
