[package]
name = "texture_to_vert_colors"
version = "0.1.0"
edition = "2021"
publish = false

[dependencies]
smallvec = "1"
ordered-float = "*"
priority-queue = "*"
clap = { version = "4", features = ["derive"] }
indicatif = "0.17"
rayon = "1"
