[package]
name = "tokr"
version = "0.1.0"
edition = "2021"
publish = false

[dependencies]
globset = "0.4"
indexmap = "2"
smol_str = "0.3"
walkdir = "2"
rayon = "1"
serde = { version = "1", features = ["derive"] }
serde_json = "1"
codespan-reporting = "0.11"
notify = "6"
clap = { version = "4", features = ["derive"] }
