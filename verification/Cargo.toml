[package]
name = "commute_filter"
version = "0.1.0"
edition = "2021"
publish = false

[dependencies]
anyhow = "*"
chrono = "*"
clap = { version = "*", features = ["derive"] }
pdfium-render = "*"
prettytable-rs = "*"
regex = "*"
