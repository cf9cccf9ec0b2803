[package]
name = "turbovec"
version = "0.4.1"
edition = "2021"
publish = false

[dependencies]
faer = { version = "0.20", default-features = false, features = ["std", "rayon"] }
rayon = "1"
