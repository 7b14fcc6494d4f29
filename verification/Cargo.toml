[package]
name = "barcode_merge"
version = "0.1.0"
edition = "2021"
publish = false

[dependencies]
clap = { version = "=4.6.7", features = ["derive"] }
flate2 = "=1.1.10"
levenshtein = "=1.0.5"
log = "=0.4.34"
rand = "=0.8.8"
regex = "=1.13.1"
simple-eyre = "0.3"
stderrlog = "=0.6.0"
