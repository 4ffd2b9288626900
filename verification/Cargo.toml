[package]
name = "batch_importer"
version = "0.1.0"
edition = "2021"
publish = false

[dependencies]
anyhow = "*"
byte-unit = "*"
clap = { version = "*", features = ["derive"] }
exponential-backoff = "*"
flate2 = "*"
indicatif = "*"
rayon = "*"
serde_json = "*"
ureq = "*"
