[package]
name = "record_stats"
version = "0.1.0"
edition = "2021"
publish = false

[dependencies]
bytes = "1"
rustc-hash = "=2.1.3"
memmap2 = "=0.9.12"
rayon = "=1.12.0"
