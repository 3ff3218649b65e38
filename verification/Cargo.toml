[package]
name = "icp_stitch"
version = "0.1.0"
edition = "2021"
publish = false

[dependencies]
ahash = "0.8"
clap = { version = "4.5", features = ["derive"] }
kornia-apriltag = "0.1"
kornia-image = { version = "0.1", default-features = false }
nalgebra = "0.34"
rayon = "1"
rusqlite = { version = "0.37", features = ["bundled"] }
zune-jpeg = "0.5"
