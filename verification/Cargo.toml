[package]
name = "csvpeek"
version = "0.1.0"
edition = "2021"
publish = false

[dependencies]
anyhow = "1"
chardetng = "0.1"
clap = { version = "4", features = ["derive"] }
colored = "2"
comfy-table = "7"
csv = "1"
encoding_rs = "0.8"
indicatif = "0.17"
rayon = "1"
regex = "1"
serde = { version = "1", features = ["derive"] }
serde_json = "1"
thiserror = "1"
