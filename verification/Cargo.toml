[package]
name = "pagepack"
version = "0.1.0"
edition = "2021"
publish = false

[dependencies]
anyhow = "*"
clap = { version = "*", features = ["derive"] }
crunch = "*"
printpdf = { version = "0.6", features = ["embedded_images"] }
tracing = "*"
tracing-subscriber = { version = "*", features = ["env-filter"] }
