[package]
name = "erasure-coding"
version = "0.1.0"
edition = "2021"
publish = false

[dependencies]
parity-scale-codec = { version = "3", features = ["derive"] }
rayon = "1"
reed-solomon-simd = "2"

[dev-dependencies]
quickcheck = { version = "1", default-features = false }
rand = { version = "0.8", features = ["small_rng"] }
