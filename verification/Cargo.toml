[package]
name = "lang_const_empirical"
version = "0.1.0"
edition = "2021"
publish = false

[dependencies]
chrono = "0.4"
clap = { version = "4", features = ["derive"] }
meval = "0.2"
plotters = "0.3"
rayon = "1"
rug = "1"
serde = { version = "1", features = ["derive"] }
serde_json = "1"
