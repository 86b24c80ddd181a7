[package]
name = "svag"
version = "0.1.0"
edition = "2021"
publish = false

[dependencies]
quick-xml = "0.37"
clap = { version = "4", features = ["derive"] }
ignore = "0.4"
rayon = "1"
thiserror = "2"
