[package]
name = "generator"
version = "0.1.0"
edition = "2021"
publish = false

[dependencies]
rayon = "1"
serde = { version = "1", features = ["derive"] }
serde_json = "1"
clap = { version = "4", features = ["derive", "env"] }
colored = "2"
handlebars = "6"
log = "0.4"
tempfile = "3"
