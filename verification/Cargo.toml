[package]
name = "formualizer_eval"
version = "0.1.0"
edition = "2021"
publish = false

[dependencies]
arrow = { version = "56", default-features = false }
arrow-array = { version = "56", default-features = false }
chrono = { version = "0.4", default-features = false, features = ["std", "clock"] }
rayon = "1"
rustc-hash = "2"
