[package]
name = "timesfm3"
version = "0.1.0"
edition = "2021"
publish = false

[dependencies]
rayon = "1"
memmap2 = "0.9"
matrixmultiply = "0.3"
num_cpus = "1"
half = "2"
csv = "1"
chrono = "0.4"
serde = { version = "1", features = ["derive"] }
